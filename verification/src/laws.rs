//! What holds of the tokenizer as a whole: decoding undoes encoding, merges
//! stay inside pretokens, and training keeps to its target.

use crate::codec::{lemma_written_valid, persisted_valid, rules_in, written_as, PersistedModel};
use crate::decode::{
    expand_all, lemma_encode_chunk_expands, lemma_expand_bytes, lemma_expand_concat, text_of,
};
use crate::segment::{lemma_cover_tiles, pattern_matches, text_bytes, tiles, SPLIT_PATTERN};
use crate::tokenizer::{
    encode_text, encode_words, lemma_words_len, pretokens, text_words, words_of, PowerTokenizer,
};
use crate::train::{
    is_best_pair, keeps_to_target, lemma_count_bound, lemma_train_grows,
    lemma_training_completes, no_ruled_pair, total_count, train_from, Trained,
};
use crate::vocab::{expansion, rules_valid};
use crate::words::ids_below;
use vstd::prelude::*;

verus! {

/// The end of the first `n` chunks: where the last of them ends.
pub open spec fn end_of(chunks: Seq<(usize, usize)>, n: int) -> int {
    if n <= 0 {
        0
    } else {
        chunks[n - 1].1 as int
    }
}

/// The pretokens of a text cover its bytes.
pub proof fn lemma_pretokens_tile(text: Seq<char>)
    requires
        text_bytes(text).len() <= usize::MAX,
    ensures
        tiles(pretokens(text), 0, text_bytes(text).len() as int),
{
    lemma_cover_tiles(
        pattern_matches(SPLIT_PATTERN@, text),
        0,
        text_bytes(text).len() as usize,
    );
}

/// The ids that the first `n` words are encoded as stand for the bytes of
/// those words and no others: no id reaches over the end of a chunk.
pub proof fn lemma_encoded_words_expand(
    rules: Seq<(u32, u32)>,
    bytes: Seq<u8>,
    chunks: Seq<(usize, usize)>,
    n: int,
)
    requires
        rules_valid(rules),
        tiles(chunks, 0, bytes.len() as int),
        0 <= n <= chunks.len(),
    ensures
        expand_all(rules, encode_words(rules, words_of(bytes, chunks), n)) == bytes.subrange(
            0,
            end_of(chunks, n),
        ),
    decreases n,
{
    let words = words_of(bytes, chunks);
    if n <= 0 {
        assert(expand_all(rules, encode_words(rules, words, n)) =~= bytes.subrange(0, 0));
    } else {
        let c = chunks[n - 1];
        lemma_encoded_words_expand(rules, bytes, chunks, n - 1);
        lemma_expand_concat(
            rules,
            encode_words(rules, words, n - 1),
            crate::encode::encode_chunk(rules, words[n - 1]),
        );
        lemma_encode_chunk_expands(rules, words[n - 1]);
        lemma_expand_bytes(rules, bytes.subrange(c.0 as int, c.1 as int));
        if n > 1 {
            assert(chunks[n - 2].1 == chunks[n - 2 + 1].0);
        }
        assert(end_of(chunks, n - 1) == c.0);
        assert(bytes.subrange(0, c.0 as int) + bytes.subrange(c.0 as int, c.1 as int)
            =~= bytes.subrange(0, c.1 as int));
    }
}

/// The ids that a text is encoded as stand for the bytes of the text.
pub proof fn lemma_encoding_expands(rules: Seq<(u32, u32)>, text: Seq<char>)
    requires
        rules_valid(rules),
        text_bytes(text).len() <= usize::MAX,
    ensures
        expand_all(rules, encode_text(rules, text)) == text_bytes(text),
{
    let bytes = text_bytes(text);
    let chunks = pretokens(text);
    lemma_pretokens_tile(text);
    lemma_encoded_words_expand(rules, bytes, chunks, chunks.len() as int);
    assert(bytes.subrange(0, end_of(chunks, chunks.len() as int)) =~= bytes);
}

/// Decoding what a text was encoded as gives the text back, whatever the
/// tokenizer was trained on.
pub proof fn law_decode_undoes_encode(tokenizer: PowerTokenizer, text: Seq<char>)
    requires
        tokenizer.wf(),
        text_bytes(text).len() <= usize::MAX,
    ensures
        text_of(expand_all(tokenizer@, encode_text(tokenizer@, text))) == text,
{
    tokenizer.lemma_wf_rules();
    lemma_encoding_expands(tokenizer@, text);
    vstd::utf8::encode_utf8_valid_utf8(text);
    vstd::utf8::encode_utf8_decode_utf8(text);
}

/// Two encodings of one text by one tokenizer are the same ids, and so are
/// the encodings by two tokenizers that hold the same rules.
pub proof fn law_encode_repeats(
    one: PowerTokenizer,
    other: PowerTokenizer,
    text: Seq<char>,
    first: Seq<u32>,
    second: Seq<u32>,
)
    requires
        one@ == other@,
        first == encode_text(one@, text),
        second == encode_text(other@, text),
    ensures
        first == second,
{
}

/// What a tokenizer is saved as can be loaded, and the tokenizer that is
/// loaded from it holds the same rules and encodes every text as the one
/// that was saved does.
pub proof fn law_load_undoes_save(
    saved: PowerTokenizer,
    model: PersistedModel,
    loaded: PowerTokenizer,
    text: Seq<char>,
)
    requires
        saved.wf(),
        written_as(saved@, model),
        loaded@ == rules_in(model.merges@),
    ensures
        persisted_valid(model),
        loaded@ == saved@,
        encode_text(loaded@, text) == encode_text(saved@, text),
{
    saved.lemma_wf_rules();
    lemma_written_valid(saved@, model);
}

/// No merge reaches over the boundary of a pretoken: up to the end of
/// each pretoken, the ids of a text stand for the bytes of the text up to
/// there, and each pretoken is encoded as it would be alone.
pub proof fn law_merges_stay_in_pretokens(tokenizer: PowerTokenizer, text: Seq<char>, n: int)
    requires
        tokenizer.wf(),
        text_bytes(text).len() <= usize::MAX,
        0 < n <= pretokens(text).len(),
    ensures
        encode_words(tokenizer@, text_words(text), n) == encode_words(
            tokenizer@,
            text_words(text),
            n - 1,
        ) + crate::encode::encode_chunk(tokenizer@, text_words(text)[n - 1]),
        expand_all(tokenizer@, encode_words(tokenizer@, text_words(text), n))
            == text_bytes(text).subrange(0, pretokens(text)[n - 1].1 as int),
{
    tokenizer.lemma_wf_rules();
    lemma_pretokens_tile(text);
    lemma_encoded_words_expand(tokenizer@, text_bytes(text), pretokens(text), n);
}

/// Entries are never changed: when rules are added to rules, every id
/// that had an entry stands for the bytes that it stood for.
pub proof fn law_entries_stay(rules: Seq<(u32, u32)>, more: Seq<(u32, u32)>, id: int)
    requires
        rules.is_prefix_of(more),
        id < 256 + rules.len(),
    ensures
        expansion(more, id) == expansion(rules, id),
    decreases id,
{
    if 256 <= id {
        let pair = rules[id - 256];
        assert(more[id - 256] == pair);
        if pair.0 < id && pair.1 < id {
            law_entries_stay(rules, more, pair.0 as int);
            law_entries_stay(rules, more, pair.1 as int);
        }
    }
}

/// Training leaves at most as many entries as the target asks for, unless
/// there were more before it, and then leaves the rules as they were. The
/// rules that were there stay, and the entries are always 256 and one for
/// each rule.
pub proof fn law_training_keeps_to_target(
    rules: Seq<(u32, u32)>,
    words: Seq<Seq<u32>>,
    target: int,
)
    ensures
        keeps_to_target(rules, train_from(rules, words, target).rules, target),
{
    lemma_train_grows(rules, words, target);
}

/// Training a fresh tokenizer on a text comes to its end: it is never
/// stopped by a pair that has a rule already.
pub proof fn law_fresh_training_completes(text: Seq<char>, target: int)
    requires
        text_bytes(text).len() <= usize::MAX,
        target <= 0x1_0000_0000,
    ensures
        train_from(Seq::empty(), text_words(text), target).complete,
{
    let rules = Seq::<(u32, u32)>::empty();
    assert(no_ruled_pair(rules, text_words(text)));
    assert(ids_below(text_words(text), 256));
    lemma_training_completes(rules, text_words(text), target);
}

/// A target of 256 entries or fewer leaves the rules as they are.
pub proof fn law_small_target_trains_nothing(
    rules: Seq<(u32, u32)>,
    words: Seq<Seq<u32>>,
    target: int,
)
    requires
        target <= 256,
    ensures
        train_from(rules, words, target) == (Trained { rules, complete: true }),
{
}

/// Training on the empty text leaves the rules as they are, whatever the
/// target.
pub proof fn law_empty_text_trains_nothing(rules: Seq<(u32, u32)>, text: Seq<char>, target: int)
    requires
        text.len() == 0,
    ensures
        train_from(rules, text_words(text), target) == (Trained { rules, complete: true }),
{
    let words = text_words(text);
    assert(text_bytes(text).len() == 0);
    lemma_pretokens_tile(text);
    assert forall|p: (u32, u32)| !is_best_pair(words, p) by {
        lemma_words_len(text_bytes(text), pretokens(text), words.len() as int);
        lemma_count_bound(words, words.len() as int, p);
        assert(total_count(words, p) == 0);
    }
}

} // verus!
