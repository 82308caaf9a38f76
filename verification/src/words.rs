//! Words: the sequences of ids that training works on, one for each
//! pretoken, and how they are rewritten when a pair is merged.

use vstd::prelude::*;

verus! {

/// The words as sequences of ids.
pub open spec fn word_seqs(words: Seq<Vec<u32>>) -> Seq<Seq<u32>> {
    Seq::new(words.len(), |i: int| words[i]@)
}

/// The number of ids in the first `m` words.
pub open spec fn len_upto(words: Seq<Seq<u32>>, m: int) -> nat
    decreases m,
{
    if m <= 0 {
        0
    } else {
        len_upto(words, m - 1) + words[m - 1].len()
    }
}

/// The number of ids in the words.
pub open spec fn total_len(words: Seq<Seq<u32>>) -> nat {
    len_upto(words, words.len() as int)
}

/// The first words hold no more ids than all of them.
pub proof fn lemma_len_upto_grows(words: Seq<Seq<u32>>, m: int, n: int)
    requires
        0 <= m <= n <= words.len(),
    ensures
        len_upto(words, m) <= len_upto(words, n),
    decreases n,
{
    if m < n {
        lemma_len_upto_grows(words, m, n - 1);
    }
}

/// Every id in the words is less than `bound`.
pub open spec fn ids_below(words: Seq<Seq<u32>>, bound: int) -> bool {
    forall|w: int, i: int|
        0 <= w < words.len() && 0 <= i < words[w].len() ==> (#[trigger] words[w][i]) < bound
}

/// `word` with every place where `pair` stands replaced by `id`, from left
/// to right; a place that overlaps one already replaced is left.
pub open spec fn rewrite(word: Seq<u32>, pair: (u32, u32), id: u32) -> Seq<u32>
    decreases word.len(),
{
    if word.len() < 2 {
        word
    } else if (word[0], word[1]) == pair {
        seq![id] + rewrite(word.skip(2), pair, id)
    } else {
        seq![word[0]] + rewrite(word.skip(1), pair, id)
    }
}

/// Every word rewritten.
pub open spec fn rewrite_all(words: Seq<Seq<u32>>, pair: (u32, u32), id: u32) -> Seq<Seq<u32>> {
    Seq::new(words.len(), |i: int| rewrite(words[i], pair, id))
}

/// Rewriting makes no word longer, and puts nothing into it but `id`.
pub proof fn lemma_rewrite_shape(word: Seq<u32>, pair: (u32, u32), id: u32)
    ensures
        rewrite(word, pair, id).len() <= word.len(),
        forall|k: int|
            0 <= k < rewrite(word, pair, id).len() ==> #[trigger] rewrite(word, pair, id)[k] == id
                || word.contains(rewrite(word, pair, id)[k]),
    decreases word.len(),
{
    let out = rewrite(word, pair, id);
    if word.len() < 2 {
        assert forall|k: int| 0 <= k < out.len() implies word.contains(#[trigger] out[k]) by {
            assert(word[k] == out[k]);
        }
    } else {
        let step: int = if (word[0], word[1]) == pair {
            2
        } else {
            1
        };
        let rest = word.skip(step);
        lemma_rewrite_shape(rest, pair, id);
        let tail = rewrite(rest, pair, id);
        assert forall|k: int| 0 <= k < out.len() implies #[trigger] out[k] == id || word.contains(
            out[k],
        ) by {
            if k == 0 {
                if step == 1 {
                    assert(out[0] == word[0]);
                }
            } else {
                assert(out[k] == tail[k - 1]);
                if tail[k - 1] != id {
                    let j = choose|j: int| 0 <= j < rest.len() && rest[j] == tail[k - 1];
                    assert(word[j + step] == out[k]);
                }
            }
        }
    }
}

/// A rewritten word begins with the new id where the word began with the
/// pair, and else as the word began.
pub proof fn lemma_rewrite_first(word: Seq<u32>, pair: (u32, u32), id: u32)
    requires
        word.len() > 0,
    ensures
        rewrite(word, pair, id).len() > 0,
        rewrite(word, pair, id)[0] == (if word.len() >= 2 && (word[0], word[1]) == pair {
            id
        } else {
            word[0]
        }),
{
}

/// Two ids that stand side by side in a rewritten word, neither of them
/// the new id, stood side by side in the word, and are not the pair that
/// was rewritten.
pub proof fn lemma_rewrite_pairs(word: Seq<u32>, pair: (u32, u32), id: u32, k: int)
    requires
        0 <= k < rewrite(word, pair, id).len() - 1,
        rewrite(word, pair, id)[k] != id,
        rewrite(word, pair, id)[k + 1] != id,
    ensures
        (rewrite(word, pair, id)[k], rewrite(word, pair, id)[k + 1]) != pair,
        exists|j: int|
            0 <= j < word.len() - 1 && (#[trigger] word[j], word[j + 1]) == (
                rewrite(word, pair, id)[k],
                rewrite(word, pair, id)[k + 1],
            ),
    decreases word.len(),
{
    let r = rewrite(word, pair, id);
    if word.len() >= 2 {
        let step: int = if (word[0], word[1]) == pair {
            2
        } else {
            1
        };
        let rest = word.skip(step);
        let tail = rewrite(rest, pair, id);
        if k == 0 {
            assert(r[1] == tail[0]);
            lemma_rewrite_first(rest, pair, id);
            assert((word[0int], word[0int + 1]) == (r[0], r[1]));
        } else {
            assert(r[k] == tail[k - 1]);
            assert(r[k + 1] == tail[k]);
            lemma_rewrite_pairs(rest, pair, id, k - 1);
            let j = choose|j: int|
                0 <= j < rest.len() - 1 && (#[trigger] rest[j], rest[j + 1]) == (
                    tail[k - 1],
                    tail[k],
                );
            assert((word[j + step], word[j + step + 1]) == (r[k], r[k + 1]));
        }
    }
}

/// Rewriting the words adds no id to them.
pub proof fn lemma_rewrite_all_len(words: Seq<Seq<u32>>, pair: (u32, u32), id: u32, m: int)
    requires
        0 <= m <= words.len(),
    ensures
        len_upto(rewrite_all(words, pair, id), m) <= len_upto(words, m),
    decreases m,
{
    if m > 0 {
        lemma_rewrite_all_len(words, pair, id, m - 1);
        lemma_rewrite_shape(words[m - 1], pair, id);
    }
}

/// Rewritten words hold the ids that they held and the new one.
pub proof fn lemma_rewrite_all_below(words: Seq<Seq<u32>>, pair: (u32, u32), id: u32, bound: int)
    requires
        ids_below(words, bound),
        id < bound + 1,
    ensures
        ids_below(rewrite_all(words, pair, id), bound + 1),
{
    let out = rewrite_all(words, pair, id);
    assert forall|w: int, i: int| 0 <= w < out.len() && 0 <= i < out[w].len() implies (
    #[trigger] out[w][i]) < bound + 1 by {
        lemma_rewrite_shape(words[w], pair, id);
        let x = rewrite(words[w], pair, id)[i];
        if x != id {
            let j = choose|j: int| 0 <= j < words[w].len() && words[w][j] == x;
            assert(words[w][j] < bound);
        }
    }
}

/// Rewrites `word` in place: every place where `pair` stands becomes
/// `new_id`, from left to right.
pub fn apply_merge_to_word(word: &mut Vec<u32>, pair: (u32, u32), new_id: u32)
    ensures
        final(word)@ == rewrite(old(word)@, pair, new_id),
{
    let n: usize = word.len();
    let mut out: Vec<u32> = Vec::new();
    let mut i: usize = 0;
    proof {
        assert(word@.skip(0) =~= word@);
        assert(out@ + rewrite(word@, pair, new_id) =~= rewrite(word@, pair, new_id));
    }
    while i < n
        invariant
            n == word@.len(),
            i <= n,
            word@ == old(word)@,
            rewrite(word@, pair, new_id) == out@ + rewrite(word@.skip(i as int), pair, new_id),
        decreases n - i,
    {
        let ghost rest = word@.skip(i as int);
        let ghost before = out@;
        if n - i >= 2 && word[i] == pair.0 && word[i + 1] == pair.1 {
            out.push(new_id);
            proof {
                assert(rest.skip(2) =~= word@.skip(i + 2));
                let tail = rewrite(word@.skip(i + 2), pair, new_id);
                assert(before + (seq![new_id] + tail) =~= out@ + tail);
            }
            i += 2;
        } else {
            out.push(word[i]);
            proof {
                if rest.len() >= 2 {
                    assert(rest.skip(1) =~= word@.skip(i + 1));
                    let tail = rewrite(word@.skip(i + 1), pair, new_id);
                    assert(before + (seq![rest[0]] + tail) =~= out@ + tail);
                } else {
                    assert(word@.skip(i + 1).len() == 0);
                    assert(before + rest =~= out@ + rewrite(word@.skip(i + 1), pair, new_id));
                }
            }
            i += 1;
        }
    }
    proof {
        assert(word@.skip(i as int).len() == 0);
        assert(out@ + rewrite(word@.skip(i as int), pair, new_id) =~= out@);
    }
    *word = out;
}

/// Rewrites every word: each place where `pair` stands becomes `new_id`.
pub fn rewrite_words(words: &mut Vec<Vec<u32>>, pair: (u32, u32), new_id: u32)
    ensures
        word_seqs(final(words)@) == rewrite_all(word_seqs(old(words)@), pair, new_id),
{
    let mut w: usize = 0;
    while w < words.len()
        invariant
            words@.len() == old(words)@.len(),
            w <= words@.len(),
            forall|j: int|
                0 <= j < w ==> (#[trigger] words@[j])@ == rewrite(old(words)@[j]@, pair, new_id),
            forall|j: int| w <= j < words@.len() ==> #[trigger] words@[j] == old(words)@[j],
        decreases words@.len() - w,
    {
        apply_merge_to_word(&mut words[w], pair, new_id);
        w += 1;
    }
    assert(word_seqs(words@) =~= rewrite_all(word_seqs(old(words)@), pair, new_id));
}

} // verus!
