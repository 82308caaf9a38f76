//! Training: counting the adjacent pairs of ids in the words of a text,
//! choosing the pair to merge next, and what training comes to.

use crate::words::{
    ids_below, lemma_len_upto_grows, lemma_rewrite_all_below, lemma_rewrite_pairs, len_upto,
    rewrite_all, total_len, word_seqs,
};
use crate::vocab::{lemma_pair_key_injective, pack, pair_key, rules_valid};
use std::collections::HashMap;
use vstd::prelude::*;

verus! {

/// How often `pair` stands at one of the first `n` places of `word`.
pub open spec fn pairs_upto(word: Seq<u32>, n: int, pair: (u32, u32)) -> nat
    decreases n,
{
    if n <= 0 {
        0
    } else {
        pairs_upto(word, n - 1, pair) + if (word[n - 1], word[n]) == pair {
            1nat
        } else {
            0nat
        }
    }
}

/// How often `pair` stands in `word`; places that overlap count each.
pub open spec fn pair_count(word: Seq<u32>, pair: (u32, u32)) -> nat {
    pairs_upto(word, word.len() - 1, pair)
}

/// How often `pair` stands in the first `m` words. A pair of which one id
/// ends a word and the other begins the next one does not count.
pub open spec fn count_upto(words: Seq<Seq<u32>>, m: int, pair: (u32, u32)) -> nat
    decreases m,
{
    if m <= 0 {
        0
    } else {
        count_upto(words, m - 1, pair) + pair_count(words[m - 1], pair)
    }
}

/// How often `pair` stands in the words.
pub open spec fn total_count(words: Seq<Seq<u32>>, pair: (u32, u32)) -> nat {
    count_upto(words, words.len() as int, pair)
}

/// `pair` stands somewhere in the words.
pub open spec fn occurs(words: Seq<Seq<u32>>, pair: (u32, u32)) -> bool {
    exists|w: int, i: int|
        0 <= w < words.len() && 0 <= i < words[w].len() - 1 && (#[trigger] words[w][i], words[w][i
            + 1]) == pair
}

/// `p` comes before `q` in the order of pairs: by the first id, then by
/// the second.
pub open spec fn pair_before(p: (u32, u32), q: (u32, u32)) -> bool {
    p.0 < q.0 || (p.0 == q.0 && p.1 < q.1)
}

/// `p` is to be merged rather than `q`: it stands more often, or as often
/// and comes before it.
pub open spec fn beats(words: Seq<Seq<u32>>, p: (u32, u32), q: (u32, u32)) -> bool {
    total_count(words, p) > total_count(words, q) || (total_count(words, p) == total_count(
        words,
        q,
    ) && pair_before(p, q))
}

/// `p` is the pair to merge next: it stands in the words, and no pair that
/// stands in them is to be merged rather than it.
pub open spec fn is_best_pair(words: Seq<Seq<u32>>, p: (u32, u32)) -> bool {
    &&& total_count(words, p) > 0
    &&& forall|q: (u32, u32)| #[trigger] total_count(words, q) > 0 ==> !beats(words, q, p)
}

/// The pair to merge next, if any pair stands in the words.
pub open spec fn best_pair(words: Seq<Seq<u32>>) -> Option<(u32, u32)> {
    if exists|p: (u32, u32)| is_best_pair(words, p) {
        Some(choose|p: (u32, u32)| is_best_pair(words, p))
    } else {
        None
    }
}

/// There is one best pair at most.
pub proof fn lemma_best_pair_unique(words: Seq<Seq<u32>>, p: (u32, u32), q: (u32, u32))
    requires
        is_best_pair(words, p),
        is_best_pair(words, q),
    ensures
        p == q,
{
}

/// A pair stands in a word no more often than the word has places.
pub proof fn lemma_pairs_bound(word: Seq<u32>, n: int, pair: (u32, u32))
    requires
        0 <= n,
    ensures
        pairs_upto(word, n, pair) <= n,
    decreases n,
{
    if n > 0 {
        lemma_pairs_bound(word, n - 1, pair);
    }
}

/// A pair stands in the first `m` words no more often than they have ids.
pub proof fn lemma_count_bound(words: Seq<Seq<u32>>, m: int, pair: (u32, u32))
    requires
        0 <= m <= words.len(),
    ensures
        count_upto(words, m, pair) <= len_upto(words, m),
    decreases m,
{
    if m > 0 {
        lemma_count_bound(words, m - 1, pair);
        if words[m - 1].len() > 0 {
            lemma_pairs_bound(words[m - 1], words[m - 1].len() - 1, pair);
        }
    }
}

/// Further places add to the count.
pub proof fn lemma_pairs_grow(word: Seq<u32>, n: int, k: int, pair: (u32, u32))
    requires
        n <= k,
    ensures
        pairs_upto(word, n, pair) <= pairs_upto(word, k, pair),
    decreases k - n,
{
    if n < k {
        lemma_pairs_grow(word, n, k - 1, pair);
    }
}

/// Further words add to the count.
pub proof fn lemma_count_grows(words: Seq<Seq<u32>>, m: int, k: int, pair: (u32, u32))
    requires
        m <= k,
    ensures
        count_upto(words, m, pair) <= count_upto(words, k, pair),
    decreases k - m,
{
    if m < k {
        lemma_count_grows(words, m, k - 1, pair);
    }
}

/// A pair that is counted at the first `n` places of a word stands at one
/// of them.
pub proof fn lemma_counted_pair_stands(word: Seq<u32>, n: int, pair: (u32, u32))
    requires
        pairs_upto(word, n, pair) > 0,
    ensures
        exists|j: int| 0 <= j < n && (#[trigger] word[j], word[j + 1]) == pair,
    decreases n,
{
    if n > 0 {
        if (word[n - 1], word[n]) == pair {
            assert((word[n - 1], word[n - 1 + 1]) == pair);
        } else {
            lemma_counted_pair_stands(word, n - 1, pair);
            let j = choose|j: int| 0 <= j < n - 1 && (#[trigger] word[j], word[j + 1]) == pair;
            assert(0 <= j < n && (word[j], word[j + 1]) == pair);
        }
    }
}

/// A pair that stands at one of the first `n` places of a word is counted.
pub proof fn lemma_standing_pair_counts(word: Seq<u32>, n: int, j: int, pair: (u32, u32))
    requires
        0 <= j < n,
        (word[j], word[j + 1]) == pair,
    ensures
        pairs_upto(word, n, pair) > 0,
    decreases n,
{
    if j < n - 1 {
        lemma_standing_pair_counts(word, n - 1, j, pair);
    }
}

/// A pair that is counted in the first `m` words stands in one of them.
pub proof fn lemma_count_occurs(words: Seq<Seq<u32>>, m: int, pair: (u32, u32))
    requires
        0 <= m <= words.len(),
        count_upto(words, m, pair) > 0,
    ensures
        occurs(words, pair),
    decreases m,
{
    if m > 0 {
        if pair_count(words[m - 1], pair) > 0 {
            let word = words[m - 1];
            lemma_counted_pair_stands(word, word.len() - 1, pair);
            let j = choose|j: int|
                0 <= j < word.len() - 1 && (#[trigger] word[j], word[j + 1]) == pair;
            assert((words[m - 1][j], words[m - 1][j + 1]) == pair);
        } else {
            lemma_count_occurs(words, m - 1, pair);
        }
    }
}

/// A pair is counted in the words if and only if it stands somewhere in
/// them.
pub proof fn lemma_counted_iff_occurs(words: Seq<Seq<u32>>, pair: (u32, u32))
    ensures
        total_count(words, pair) > 0 <==> occurs(words, pair),
{
    if total_count(words, pair) > 0 {
        lemma_count_occurs(words, words.len() as int, pair);
    }
    if occurs(words, pair) {
        let (w, i) = choose|w: int, i: int|
            0 <= w < words.len() && 0 <= i < words[w].len() - 1 && (#[trigger] words[w][i], words[w][i
                + 1]) == pair;
        lemma_standing_pair_counts(words[w], words[w].len() - 1, i, pair);
        lemma_count_grows(words, w + 1, words.len() as int, pair);
    }
}

/// How often `pair` stands in the first `m` words and at the first `n`
/// places of the word that follows them.
pub open spec fn tally(words: Seq<Seq<u32>>, m: int, n: int, pair: (u32, u32)) -> nat {
    count_upto(words, m, pair) + if 0 <= m < words.len() {
        pairs_upto(words[m], n, pair)
    } else {
        0
    }
}

/// The table holds, for every pair, how often it was met so far, and no
/// entry for a pair that was not met.
pub open spec fn counts_match(counts: Map<u64, usize>, words: Seq<Seq<u32>>, m: int, n: int) -> bool {
    forall|a: u32, b: u32|
        {
            &&& #[trigger] counts.contains_key(pair_key(a, b)) <==> tally(words, m, n, (a, b)) > 0
            &&& counts.contains_key(pair_key(a, b)) ==> counts[pair_key(a, b)] == tally(
                words,
                m,
                n,
                (a, b),
            )
        }
}

/// What was met so far is no more than what there is.
pub proof fn lemma_tally_bound(words: Seq<Seq<u32>>, m: int, n: int, pair: (u32, u32))
    requires
        0 <= m < words.len(),
        0 <= n <= words[m].len() - 1,
    ensures
        tally(words, m, n, pair) <= total_count(words, pair),
        tally(words, m, n, pair) <= len_upto(words, m) + n,
        len_upto(words, m) + words[m].len() <= total_len(words),
{
    lemma_pairs_grow(words[m], n, words[m].len() - 1, pair);
    lemma_count_grows(words, m + 1, words.len() as int, pair);
    lemma_count_bound(words, m, pair);
    lemma_pairs_bound(words[m], n, pair);
    lemma_len_upto_grows(words, m + 1, words.len() as int);
}

/// Counts every pair of the words.
fn count_pairs(words: &Vec<Vec<u32>>) -> (counts: HashMap<u64, usize>)
    requires
        total_len(word_seqs(words@)) <= usize::MAX,
    ensures
        counts_match(counts@, word_seqs(words@), words@.len() as int, 0),
{
    let ghost ws = word_seqs(words@);
    let mut counts: HashMap<u64, usize> = HashMap::new();
    let mut w: usize = 0;
    while w < words.len()
        invariant
            w <= words@.len(),
            ws == word_seqs(words@),
            total_len(ws) <= usize::MAX,
            counts_match(counts@, ws, w as int, 0),
        decreases words@.len() - w,
    {
        let word = &words[w];
        let mut i: usize = 0;
        if word.len() >= 2 {
            let last: usize = word.len() - 1;
            while i < last
                invariant
                    w < words@.len(),
                    ws == word_seqs(words@),
                    word@ == ws[w as int],
                    last == word@.len() - 1,
                    i <= last,
                    total_len(ws) <= usize::MAX,
                    counts_match(counts@, ws, w as int, i as int),
                decreases last - i,
            {
                let a = word[i];
                let b = word[i + 1];
                let key = pack(a, b);
                let seen: usize = match counts.get(&key) {
                    Some(c) => *c,
                    None => 0,
                };
                proof {
                    assert(seen == tally(ws, w as int, i as int, (a, b)));
                    lemma_tally_bound(ws, w as int, i as int, (a, b));
                }
                let ghost before = counts@;
                counts.insert(key, seen + 1);
                proof {
                    assert forall|c: u32, d: u32|
                        {
                            &&& #[trigger] counts@.contains_key(pair_key(c, d)) <==> tally(
                                ws,
                                w as int,
                                i + 1,
                                (c, d),
                            ) > 0
                            &&& counts@.contains_key(pair_key(c, d)) ==> counts@[pair_key(c, d)]
                                == tally(ws, w as int, i + 1, (c, d))
                        } by {
                        assert(before.contains_key(pair_key(c, d)) <==> tally(
                            ws,
                            w as int,
                            i as int,
                            (c, d),
                        ) > 0);
                        if pair_key(c, d) == key {
                            lemma_pair_key_injective(c, d, a, b);
                        }
                    }
                }
                i += 1;
            }
        }
        proof {
            assert forall|c: u32, d: u32|
                tally(ws, w + 1, 0, (c, d)) == tally(ws, w as int, i as int, (c, d)) by {}
        }
        w += 1;
    }
    counts
}

/// The pair to merge next and how often it stands in the words: the most
/// frequent pair, and among those that stand equally often the first in
/// the order of pairs. `None` where no word has two ids.
pub fn most_frequent_pair(words: &Vec<Vec<u32>>) -> (r: Option<((u32, u32), usize)>)
    requires
        total_len(word_seqs(words@)) <= usize::MAX,
    ensures
        match r {
            Some((pair, count)) => {
                &&& best_pair(word_seqs(words@)) == Some(pair)
                &&& is_best_pair(word_seqs(words@), pair)
                &&& count == total_count(word_seqs(words@), pair)
                &&& occurs(word_seqs(words@), pair)
            },
            None => {
                &&& best_pair(word_seqs(words@)) is None
                &&& forall|q: (u32, u32)| total_count(word_seqs(words@), q) == 0
            },
        },
{
    let ghost ws = word_seqs(words@);
    let counts = count_pairs(words);
    let mut best: Option<((u32, u32), usize)> = None;
    let mut w: usize = 0;
    while w < words.len()
        invariant
            w <= words@.len(),
            ws == word_seqs(words@),
            counts_match(counts@, ws, words@.len() as int, 0),
            match best {
                Some((p, c)) => {
                    &&& c == total_count(ws, p)
                    &&& c > 0
                    &&& occurs(ws, p)
                    &&& forall|q: (u32, u32)| #[trigger]
                        tally(ws, w as int, 0, q) > 0 ==> !beats(ws, q, p)
                },
                None => forall|q: (u32, u32)| #[trigger] tally(ws, w as int, 0, q) == 0,
            },
        decreases words@.len() - w,
    {
        let word = &words[w];
        let mut i: usize = 0;
        if word.len() >= 2 {
            let last: usize = word.len() - 1;
            while i < last
                invariant
                    w < words@.len(),
                    ws == word_seqs(words@),
                    word@ == ws[w as int],
                    last == word@.len() - 1,
                    i <= last,
                    counts_match(counts@, ws, words@.len() as int, 0),
                    match best {
                        Some((p, c)) => {
                            &&& c == total_count(ws, p)
                            &&& c > 0
                            &&& occurs(ws, p)
                            &&& forall|q: (u32, u32)| #[trigger]
                                tally(ws, w as int, i as int, q) > 0 ==> !beats(ws, q, p)
                        },
                        None => forall|q: (u32, u32)| #[trigger]
                            tally(ws, w as int, i as int, q) == 0,
                    },
                decreases last - i,
            {
                let a = word[i];
                let b = word[i + 1];
                let key = pack(a, b);
                proof {
                    lemma_tally_bound(ws, w as int, i + 1, (a, b));
                    assert(tally(ws, words@.len() as int, 0, (a, b)) == total_count(ws, (a, b)));
                    assert(counts@.contains_key(pair_key(a, b)));
                }
                let count: usize = match counts.get(&key) {
                    Some(c) => *c,
                    None => 0,
                };
                let better = match best {
                    Some((p, c)) => count > c || (count == c && (a < p.0 || (a == p.0 && b < p.1))),
                    None => true,
                };
                let ghost old_best = best;
                if better {
                    best = Some(((a, b), count));
                }
                proof {
                    assert((ws[w as int][i as int], ws[w as int][i + 1]) == (a, b));
                    let chosen = match best {
                        Some((p, _)) => p,
                        None => (a, b),
                    };
                    assert forall|q: (u32, u32)| #[trigger]
                        tally(ws, w as int, i + 1, q) > 0 implies !beats(ws, q, chosen) by {
                        if q != (a, b) {
                            assert(tally(ws, w as int, i as int, q) > 0);
                        }
                    }
                }
                i += 1;
            }
        }
        proof {
            match best {
                Some((p, c)) => {
                    assert forall|q: (u32, u32)| #[trigger]
                        tally(ws, w + 1, 0, q) > 0 implies !beats(ws, q, p) by {
                        assert(tally(ws, w + 1, 0, q) == tally(ws, w as int, i as int, q));
                    }
                },
                None => {
                    assert forall|q: (u32, u32)| #[trigger] tally(ws, w + 1, 0, q) == 0 by {
                        assert(tally(ws, w + 1, 0, q) == tally(ws, w as int, i as int, q));
                    }
                },
            }
        }
        w += 1;
    }
    proof {
        assert forall|q: (u32, u32)| tally(ws, w as int, 0, q) == total_count(ws, q) by {}
        match best {
            Some((p, c)) => {
                assert(is_best_pair(ws, p));
                let chosen = choose|q: (u32, u32)| is_best_pair(ws, q);
                lemma_best_pair_unique(ws, p, chosen);
            },
            None => {
                assert forall|q: (u32, u32)| total_count(ws, q) == 0 by {
                    assert(tally(ws, w as int, 0, q) == 0);
                }
            },
        }
    }
    best
}

/// Where training ends: the rules that it leaves, and whether it came to
/// its end or was stopped by a pair that had a rule already.
pub struct Trained {
    pub rules: Seq<(u32, u32)>,
    pub complete: bool,
}

/// Training from the given rules and words up to `target` entries. While
/// the vocabulary is smaller than the target and some pair stands in the
/// words, the best pair gets the next id and the words are rewritten with
/// it. A best pair that has a rule already stops the training.
pub open spec fn train_from(rules: Seq<(u32, u32)>, words: Seq<Seq<u32>>, target: int) -> Trained
    decreases target - rules.len(),
{
    if 256 + rules.len() >= target {
        Trained { rules, complete: true }
    } else {
        match best_pair(words) {
            None => Trained { rules, complete: true },
            Some(pair) => {
                if rules.contains(pair) {
                    Trained { rules, complete: false }
                } else {
                    train_from(
                        rules.push(pair),
                        rewrite_all(words, pair, (256 + rules.len()) as u32),
                        target,
                    )
                }
            },
        }
    }
}

/// The rules after training continue those before it, and either stay
/// within the target or are those before it.
pub open spec fn keeps_to_target(
    before: Seq<(u32, u32)>,
    after: Seq<(u32, u32)>,
    target: int,
) -> bool {
    before.is_prefix_of(after) && (256 + after.len() <= target || after == before)
}

/// Training adds rules to those that were there, and either stays within
/// the target or adds none.
pub proof fn lemma_train_grows(rules: Seq<(u32, u32)>, words: Seq<Seq<u32>>, target: int)
    ensures
        keeps_to_target(rules, train_from(rules, words, target).rules, target),
    decreases target - rules.len(),
{
    if 256 + rules.len() < target {
        match best_pair(words) {
            None => {},
            Some(pair) => {
                if !rules.contains(pair) {
                    let id = (256 + rules.len()) as u32;
                    let next = rules.push(pair);
                    lemma_train_grows(next, rewrite_all(words, pair, id), target);
                    let end = train_from(rules, words, target).rules;
                    assert(rules =~= next.subrange(0, rules.len() as int));
                    assert(rules =~= end.subrange(0, rules.len() as int));
                }
            },
        }
    }
}

/// No pair that has a rule stands in the words.
pub open spec fn no_ruled_pair(rules: Seq<(u32, u32)>, words: Seq<Seq<u32>>) -> bool {
    forall|p: (u32, u32)| #[trigger] rules.contains(p) ==> total_count(words, p) == 0
}

/// After a merge no pair that has a rule stands in the rewritten words,
/// if none stood in the words before.
pub proof fn lemma_merge_keeps_clear(rules: Seq<(u32, u32)>, words: Seq<Seq<u32>>, pair: (u32, u32))
    requires
        rules_valid(rules),
        256 + rules.len() < 0x1_0000_0000,
        no_ruled_pair(rules, words),
        ids_below(words, 256 + rules.len() as int),
        occurs(words, pair),
    ensures
        rules_valid(rules.push(pair)),
        no_ruled_pair(
            rules.push(pair),
            rewrite_all(words, pair, (256 + rules.len()) as u32),
        ),
{
    let id = (256 + rules.len()) as u32;
    let next = rules.push(pair);
    let after = rewrite_all(words, pair, id);
    lemma_counted_iff_occurs(words, pair);
    let (w0, i0) = choose|w: int, i: int|
        0 <= w < words.len() && 0 <= i < words[w].len() - 1 && (#[trigger] words[w][i], words[w][i
            + 1]) == pair;
    assert(words[w0][i0] < id && words[w0][i0 + 1] < id);
    assert forall|i: int, j: int| 0 <= i < j < next.len() implies #[trigger] next[i]
        != #[trigger] next[j] by {
        if j == rules.len() {
            assert(rules.contains(rules[i]));
        }
    }
    assert(rules_valid(next));
    assert forall|q: (u32, u32)| #[trigger] next.contains(q) implies total_count(after, q)
        == 0 by {
        let at = next.index_of(q);
        assert(0 <= at < next.len() && next[at] == q);
        assert(q.0 < id && q.1 < id);
        if total_count(after, q) > 0 {
            lemma_counted_iff_occurs(after, q);
            let (w, k) = choose|w: int, k: int|
                0 <= w < after.len() && 0 <= k < after[w].len() - 1 && (#[trigger] after[w][k], after[w][k
                    + 1]) == q;
            lemma_rewrite_pairs(words[w], pair, id, k);
            let j = choose|j: int|
                0 <= j < words[w].len() - 1 && (#[trigger] words[w][j], words[w][j + 1]) == q;
            assert((words[w][j], words[w][j + 1]) == q);
            lemma_counted_iff_occurs(words, q);
            assert(at < rules.len());
            assert(rules.contains(rules[at]));
        }
    }
}

/// Training comes to its end if no pair that has a rule stands in the
/// words it begins with: no best pair then ever has a rule already.
pub proof fn lemma_training_completes(rules: Seq<(u32, u32)>, words: Seq<Seq<u32>>, target: int)
    requires
        rules_valid(rules),
        target <= 0x1_0000_0000,
        no_ruled_pair(rules, words),
        ids_below(words, 256 + rules.len() as int),
    ensures
        train_from(rules, words, target).complete,
    decreases target - rules.len(),
{
    if 256 + rules.len() < target {
        match best_pair(words) {
            None => {},
            Some(pair) => {
                assert(is_best_pair(words, pair));
                assert(!rules.contains(pair));
                let id = (256 + rules.len()) as u32;
                lemma_counted_iff_occurs(words, pair);
                lemma_merge_keeps_clear(rules, words, pair);
                lemma_rewrite_all_below(words, pair, id, 256 + rules.len() as int);
                lemma_training_completes(
                    rules.push(pair),
                    rewrite_all(words, pair, id),
                    target,
                );
            },
        }
    }
}

} // verus!
