//! The tokenizer: a vocabulary and the segmenter by which texts are cut,
//! with training, encoding and decoding.

use crate::codec::{
    export_store, import_store, persisted_valid, rules_in, written_as, PersistedModel,
};
use crate::decode::{decode_text, expand_all, text_of};
use crate::encode::{byte_ids, encode_chunk, encode_word, word_of};
use crate::laws::{
    law_decode_undoes_encode, law_empty_text_trains_nothing, lemma_encoding_expands,
};
use crate::segment::{
    chunks_of, pattern_matches, text_bytes, tiles, within, Segmenter, SPLIT_PATTERN,
};
use crate::train::{
    best_pair, keeps_to_target, lemma_train_grows, lemma_training_completes, most_frequent_pair,
    no_ruled_pair, total_count, train_from, Trained,
};
use crate::vocab::{rules_valid, ModelError, VocabStore};
use crate::words::{
    ids_below, lemma_rewrite_all_below, lemma_rewrite_all_len, len_upto, rewrite_all,
    rewrite_words, total_len, word_seqs,
};
use vstd::pervasive::unreached;
use vstd::prelude::*;

verus! {

/// The pretokens of a text, as the ranges of their bytes.
pub open spec fn pretokens(text: Seq<char>) -> Seq<(usize, usize)> {
    chunks_of(pattern_matches(SPLIT_PATTERN@, text), text_bytes(text).len() as usize)
}

/// The words that the chunks cut out of the bytes, each byte as its id.
pub open spec fn words_of(bytes: Seq<u8>, chunks: Seq<(usize, usize)>) -> Seq<Seq<u32>> {
    Seq::new(
        chunks.len(),
        |i: int| byte_ids(bytes.subrange(chunks[i].0 as int, chunks[i].1 as int)),
    )
}

/// The words of a text: its pretokens, each byte as its id.
pub open spec fn text_words(text: Seq<char>) -> Seq<Seq<u32>> {
    words_of(text_bytes(text), pretokens(text))
}

/// The first `n` words encoded, each by itself, one after the other.
pub open spec fn encode_words(rules: Seq<(u32, u32)>, words: Seq<Seq<u32>>, n: int) -> Seq<u32>
    decreases n,
{
    if n <= 0 {
        Seq::empty()
    } else {
        encode_words(rules, words, n - 1) + encode_chunk(rules, words[n - 1])
    }
}

/// The ids that a text is encoded as under the rules.
pub open spec fn encode_text(rules: Seq<(u32, u32)>, text: Seq<char>) -> Seq<u32> {
    encode_words(rules, text_words(text), text_words(text).len() as int)
}

/// The words that chunks cut out of bytes hold, up to each chunk, as many
/// ids as there are bytes before its end.
pub proof fn lemma_words_len(bytes: Seq<u8>, chunks: Seq<(usize, usize)>, n: int)
    requires
        tiles(chunks, 0, bytes.len() as int),
        0 <= n <= chunks.len(),
    ensures
        len_upto(words_of(bytes, chunks), n) == (if n == 0 {
            0
        } else {
            chunks[n - 1].1 as int
        }),
    decreases n,
{
    if n > 0 {
        lemma_words_len(bytes, chunks, n - 1);
        let c = chunks[n - 1];
        assert(words_of(bytes, chunks)[n - 1].len() == c.1 - c.0);
        if n > 1 {
            assert(chunks[n - 2].1 == chunks[n - 2 + 1].0);
        }
    }
}

/// The words of the chunks, each byte as its id.
pub fn words_in(bytes: &[u8], chunks: &Vec<(usize, usize)>) -> (words: Vec<Vec<u32>>)
    requires
        within(chunks@, bytes@.len() as int),
    ensures
        word_seqs(words@) == words_of(bytes@, chunks@),
{
    let mut words: Vec<Vec<u32>> = Vec::new();
    let mut i: usize = 0;
    while i < chunks.len()
        invariant
            within(chunks@, bytes@.len() as int),
            i <= chunks@.len(),
            words@.len() == i,
            forall|j: int|
                0 <= j < i ==> (#[trigger] words@[j])@ == byte_ids(
                    bytes@.subrange(chunks@[j].0 as int, chunks@[j].1 as int),
                ),
        decreases chunks@.len() - i,
    {
        let chunk = chunks[i];
        let word = word_of(bytes, chunk.0, chunk.1);
        words.push(word);
        i += 1;
    }
    assert(word_seqs(words@) =~= words_of(bytes@, chunks@));
    words
}

/// A step of training that was made: the id that was created, the pair
/// that it stands for, and how often the pair stood in the words.
#[derive(Clone, Copy, Debug, PartialEq, Eq)]
pub struct MergeStep {
    pub id: u32,
    pub pair: (u32, u32),
    pub count: usize,
}

/// What a step of training comes to: nothing where no pair stands in the
/// words, a refusal where the best pair has a rule already, and else the
/// merge of the best pair into the next id.
pub open spec fn step_result(rules: Seq<(u32, u32)>, words: Seq<Seq<u32>>) -> Result<
    Option<MergeStep>,
    ModelError,
> {
    match best_pair(words) {
        None => Ok(None),
        Some(pair) => {
            if rules.contains(pair) {
                Err(ModelError::DuplicatePair)
            } else {
                Ok(
                    Some(
                        MergeStep {
                            id: (256 + rules.len()) as u32,
                            pair,
                            count: total_count(words, pair) as usize,
                        },
                    ),
                )
            }
        },
    }
}

/// The observer that does nothing.
pub fn unobserved(step: MergeStep) {
}

/// A byte-pair-encoding tokenizer. Its view is the sequence of its merge
/// rules in the order in which training created them.
#[derive(Debug)]
pub struct PowerTokenizer {
    store: VocabStore,
    segmenter: Option<Segmenter>,
}

impl View for PowerTokenizer {
    type V = Seq<(u32, u32)>;

    closed spec fn view(&self) -> Seq<(u32, u32)> {
        self.store@
    }
}

impl PowerTokenizer {
    /// The vocabulary is well formed, and the segmenter, where there is
    /// one, cuts by `SPLIT_PATTERN`.
    pub closed spec fn wf(&self) -> bool {
        &&& self.store.wf()
        &&& self.segmenter matches Some(s) ==> s.pattern() == SPLIT_PATTERN@
    }

    /// The tokenizer has its segmenter: `SPLIT_PATTERN` compiled.
    pub closed spec fn ready(&self) -> bool {
        self.segmenter is Some
    }

    /// The rules of a well-formed tokenizer are valid.
    pub proof fn lemma_wf_rules(&self)
        requires
            self.wf(),
        ensures
            rules_valid(self@),
    {
        self.store.lemma_wf_rules();
    }

    /// A fresh tokenizer: the 256 single-byte entries and no merge rule.
    /// It is ready unless the pattern did not compile.
    pub fn new() -> (tokenizer: PowerTokenizer)
        ensures
            tokenizer.wf(),
            tokenizer@ == Seq::<(u32, u32)>::empty(),
    {
        PowerTokenizer { store: VocabStore::init(), segmenter: Segmenter::standard() }
    }

    /// Whether the tokenizer has its segmenter, which training and encoding
    /// need.
    pub fn is_ready(&self) -> (r: bool)
        ensures
            r == self.ready(),
    {
        self.segmenter.is_some()
    }

    /// The vocabulary.
    pub fn vocab(&self) -> (store: &VocabStore)
        requires
            self.wf(),
        ensures
            store.wf(),
            store@ == self@,
    {
        &self.store
    }

    /// The number of entries of the vocabulary.
    pub fn vocab_size(&self) -> (n: usize)
        requires
            self.wf(),
        ensures
            n == 256 + self@.len(),
    {
        self.store.size()
    }

    /// Cuts `text` into its pretokens.
    fn cut(&self, text: &str) -> (chunks: Vec<(usize, usize)>)
        requires
            self.wf(),
            self.ready(),
        ensures
            chunks@ == pretokens(text@),
            tiles(chunks@, 0, text_bytes(text@).len() as int),
    {
        match &self.segmenter {
            Some(segmenter) => segmenter.segment(text),
            None => unreached(),
        }
    }

    /// Encodes the chunks of `bytes`: each by itself, by the merge rules,
    /// and the ids of all of them in the order of the chunks.
    pub fn encode_chunks(&self, bytes: &[u8], chunks: &Vec<(usize, usize)>) -> (ids: Vec<u32>)
        requires
            self.wf(),
            within(chunks@, bytes@.len() as int),
        ensures
            ids@ == encode_words(self@, words_of(bytes@, chunks@), chunks@.len() as int),
    {
        let ghost words = words_of(bytes@, chunks@);
        let mut ids: Vec<u32> = Vec::new();
        let mut i: usize = 0;
        while i < chunks.len()
            invariant
                self.wf(),
                within(chunks@, bytes@.len() as int),
                words == words_of(bytes@, chunks@),
                i <= chunks@.len(),
                ids@ == encode_words(self@, words, i as int),
            decreases chunks@.len() - i,
        {
            let chunk = chunks[i];
            let word = word_of(bytes, chunk.0, chunk.1);
            let mut encoded = encode_word(&self.store, word);
            ids.append(&mut encoded);
            i += 1;
        }
        ids
    }

    /// Encodes `text`: each pretoken by itself, by the merge rules, and the
    /// ids of all of them in the order of the pretokens. The ids stand for
    /// the bytes of the text, so that decoding them gives the text back.
    pub fn encode(&self, text: &str) -> (ids: Vec<u32>)
        requires
            self.wf(),
            self.ready(),
        ensures
            ids@ == encode_text(self@, text@),
            expand_all(self@, ids@) == text_bytes(text@),
            text_of(expand_all(self@, ids@)) == text@,
    {
        let bytes = text.as_bytes();
        let chunks = self.cut(text);
        proof {
            law_decode_undoes_encode(*self, text@);
            self.lemma_wf_rules();
            lemma_encoding_expands(self@, text@);
        }
        self.encode_chunks(bytes, &chunks)
    }

    /// Decodes `ids`: the bytes of their entries one after the other, read
    /// as UTF-8 with the replacement character for what is not. An id that
    /// has no entry is passed over.
    pub fn decode(&self, ids: &[u32]) -> (text: String)
        requires
            self.wf(),
        ensures
            text@ == text_of(expand_all(self@, ids@)),
    {
        decode_text(&self.store, ids)
    }

    /// The model as it is persisted: the merge rules in the order of their
    /// creation and the entries in the order of their ids. The segmenter
    /// is no part of it.
    pub fn save(&self) -> (model: PersistedModel)
        requires
            self.wf(),
        ensures
            written_as(self@, model),
            persisted_valid(model),
    {
        export_store(&self.store)
    }

    /// The tokenizer that a persisted model describes, with the segmenter
    /// made anew from `SPLIT_PATTERN`. A model that does not describe a
    /// vocabulary is refused as corrupt.
    pub fn load(model: &PersistedModel) -> (r: Result<PowerTokenizer, ModelError>)
        ensures
            r is Ok <==> persisted_valid(*model),
            r matches Ok(tokenizer) ==> tokenizer.wf() && tokenizer@ == rules_in(model.merges@),
            r is Err ==> r == Err::<PowerTokenizer, ModelError>(ModelError::CorruptModel),
    {
        match import_store(model) {
            Ok(store) => Ok(PowerTokenizer { store, segmenter: Segmenter::standard() }),
            Err(_) => Err(ModelError::CorruptModel),
        }
    }

    /// Trains on `text` until the vocabulary has `vocab_size` entries or no
    /// pair is left in the words of the text. The words are the pretokens
    /// of the text, each byte as its id, whatever rules there are already;
    /// a best pair that has a rule already stops the training with
    /// `DuplicatePair`, and the rules made until then stay. Training a
    /// fresh tokenizer always comes to its end.
    pub fn train(&mut self, text: &str, vocab_size: usize) -> (r: Result<(), ModelError>)
        requires
            old(self).wf(),
            old(self).ready(),
            vocab_size <= 0x1_0000_0000,
        ensures
            final(self).wf(),
            final(self).ready(),
            final(self)@ == train_from(old(self)@, text_words(text@), vocab_size as int).rules,
            r is Ok <==> train_from(old(self)@, text_words(text@), vocab_size as int).complete,
            r is Err ==> r == Err::<(), ModelError>(ModelError::DuplicatePair),
            keeps_to_target(old(self)@, final(self)@, vocab_size as int),
            vocab_size <= 256 || text@.len() == 0 ==> r is Ok && final(self)@ == old(self)@,
            old(self)@.len() == 0 ==> r is Ok,
    {
        self.train_observed(text, vocab_size, &unobserved)
    }

    /// Trains on `text` as `train` does, and hands every step that is made
    /// to `observer`. What the observer does has no part in what is
    /// learned.
    pub fn train_observed<F: Fn(MergeStep)>(
        &mut self,
        text: &str,
        vocab_size: usize,
        observer: &F,
    ) -> (r: Result<(), ModelError>)
        requires
            old(self).wf(),
            old(self).ready(),
            vocab_size <= 0x1_0000_0000,
            forall|step: MergeStep| call_requires(*observer, (step,)),
        ensures
            final(self).wf(),
            final(self).ready(),
            final(self)@ == train_from(old(self)@, text_words(text@), vocab_size as int).rules,
            r is Ok <==> train_from(old(self)@, text_words(text@), vocab_size as int).complete,
            r is Err ==> r == Err::<(), ModelError>(ModelError::DuplicatePair),
            keeps_to_target(old(self)@, final(self)@, vocab_size as int),
            vocab_size <= 256 || text@.len() == 0 ==> r is Ok && final(self)@ == old(self)@,
            old(self)@.len() == 0 ==> r is Ok,
    {
        let bytes = text.as_bytes();
        let chunks = self.cut(text);
        let words = words_in(bytes, &chunks);
        proof {
            lemma_words_len(bytes@, chunks@, chunks@.len() as int);
            assert(ids_below(word_seqs(words@), 256));
            if text@.len() == 0 {
                law_empty_text_trains_nothing(self@, text@, vocab_size as int);
            }
        }
        self.train_words(words, vocab_size, observer)
    }

    /// One step of training: the best pair of the words gets the next id,
    /// and every word is rewritten with it. Nothing is done where no pair
    /// stands in the words, and nothing but to refuse where the best pair
    /// has a rule already.
    pub fn merge_next(&mut self, words: &mut Vec<Vec<u32>>) -> (r: Result<
        Option<MergeStep>,
        ModelError,
    >)
        requires
            old(self).wf(),
            256 + old(self)@.len() < 0x1_0000_0000,
            total_len(word_seqs(old(words)@)) <= usize::MAX,
            ids_below(word_seqs(old(words)@), 256 + old(self)@.len() as int),
        ensures
            final(self).wf(),
            final(self).ready() == old(self).ready(),
            total_len(word_seqs(final(words)@)) <= usize::MAX,
            ids_below(word_seqs(final(words)@), 256 + final(self)@.len() as int),
            r == step_result(old(self)@, word_seqs(old(words)@)),
            r matches Ok(Some(step)) ==> final(self)@ == old(self)@.push(step.pair) && word_seqs(
                final(words)@,
            ) == rewrite_all(word_seqs(old(words)@), step.pair, step.id),
            !(r matches Ok(Some(_))) ==> final(self)@ == old(self)@ && final(words)@ == old(
                words,
            )@,
    {
        let ghost rules = self.store@;
        let ghost ws = word_seqs(words@);
        match most_frequent_pair(words) {
            None => Ok(None),
            Some((pair, count)) => {
                let id = self.store.size() as u32;
                proof {
                    let (w, i) = choose|w: int, i: int|
                        0 <= w < ws.len() && 0 <= i < ws[w].len() - 1 && (
                        #[trigger] ws[w][i], ws[w][i + 1]) == pair;
                    assert(ws[w][i] < 256 + rules.len());
                    assert(ws[w][i + 1] < 256 + rules.len());
                }
                match self.store.add_merge(pair, id) {
                    Err(e) => Err(e),
                    Ok(()) => {
                        rewrite_words(words, pair, id);
                        proof {
                            lemma_rewrite_all_len(ws, pair, id, ws.len() as int);
                            lemma_rewrite_all_below(ws, pair, id, 256 + rules.len() as int);
                        }
                        Ok(Some(MergeStep { id, pair, count }))
                    },
                }
            },
        }
    }

    /// Trains on `words` until the vocabulary has `vocab_size` entries or
    /// no pair is left in the words: step after step the best pair gets
    /// the next id, and every word is rewritten with it. A best pair that
    /// has a rule already stops the training with `DuplicatePair`, and the
    /// rules made until then stay; that does not happen where no pair that
    /// has a rule stands in the words. Every step that is made is handed
    /// to `observer`.
    pub fn train_words<F: Fn(MergeStep)>(
        &mut self,
        words: Vec<Vec<u32>>,
        vocab_size: usize,
        observer: &F,
    ) -> (r: Result<(), ModelError>)
        requires
            old(self).wf(),
            vocab_size <= 0x1_0000_0000,
            total_len(word_seqs(words@)) <= usize::MAX,
            ids_below(word_seqs(words@), 256 + old(self)@.len() as int),
            forall|step: MergeStep| call_requires(*observer, (step,)),
        ensures
            final(self).wf(),
            final(self).ready() == old(self).ready(),
            final(self)@ == train_from(old(self)@, word_seqs(words@), vocab_size as int).rules,
            r is Ok <==> train_from(old(self)@, word_seqs(words@), vocab_size as int).complete,
            r is Err ==> r == Err::<(), ModelError>(ModelError::DuplicatePair),
            keeps_to_target(old(self)@, final(self)@, vocab_size as int),
            vocab_size <= 256 ==> r is Ok && final(self)@ == old(self)@,
            no_ruled_pair(old(self)@, word_seqs(words@)) ==> r is Ok,
    {
        let ghost first = word_seqs(words@);
        let mut current = words;
        let ghost start = self.store@;
        let ghost end = train_from(start, first, vocab_size as int);
        proof {
            lemma_train_grows(start, first, vocab_size as int);
            if no_ruled_pair(start, first) {
                self.store.lemma_wf_rules();
                lemma_training_completes(start, first, vocab_size as int);
            }
        }
        while self.store.size() < vocab_size
            invariant
                self.wf(),
                self.ready() == old(self).ready(),
                vocab_size <= 0x1_0000_0000,
                forall|step: MergeStep| call_requires(*observer, (step,)),
                start == old(self)@,
                first == word_seqs(words@),
                end == train_from(start, first, vocab_size as int),
                keeps_to_target(start, end.rules, vocab_size as int),
                vocab_size <= 256 ==> end == (Trained { rules: start, complete: true }),
                no_ruled_pair(start, first) ==> end.complete,
                total_len(word_seqs(current@)) <= usize::MAX,
                ids_below(word_seqs(current@), 256 + self.store@.len() as int),
                train_from(self.store@, word_seqs(current@), vocab_size as int) == end,
            decreases vocab_size - self.store@.len(),
        {
            let ghost rules = self.store@;
            let ghost ws = word_seqs(current@);
            match self.merge_next(&mut current) {
                Ok(None) => {
                    assert(train_from(rules, ws, vocab_size as int) == Trained {
                        rules,
                        complete: true,
                    });
                    return Ok(());
                },
                Ok(Some(step)) => {
                    assert(train_from(rules, ws, vocab_size as int) == train_from(
                        rules.push(step.pair),
                        rewrite_all(ws, step.pair, step.id),
                        vocab_size as int,
                    ));
                    observer(step);
                },
                Err(e) => {
                    assert(train_from(rules, ws, vocab_size as int) == Trained {
                        rules,
                        complete: false,
                    });
                    return Err(e);
                },
            }
        }
        assert(train_from(self.store@, word_seqs(current@), vocab_size as int) == Trained {
            rules: self.store@,
            complete: true,
        });
        Ok(())
    }
}

} // verus!
