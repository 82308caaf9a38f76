//! Encoding one pretoken: its bytes become ids, and the merge rules are
//! applied one at a time, the earliest rule first.

use crate::vocab::{rules_valid, VocabStore};
use vstd::prelude::*;

verus! {

/// Each byte as the id that stands for it.
pub open spec fn byte_ids(bytes: Seq<u8>) -> Seq<u32> {
    Seq::new(bytes.len(), |i: int| bytes[i] as u32)
}

/// The ids at `i` and `i + 1` are a pair that has a rule.
pub open spec fn has_rule_at(rules: Seq<(u32, u32)>, ids: Seq<u32>, i: int) -> bool {
    0 <= i < ids.len() - 1 && rules.contains((ids[i], ids[i + 1]))
}

/// The place among the rules of the pair that stands at `i`.
pub open spec fn rank_at(rules: Seq<(u32, u32)>, ids: Seq<u32>, i: int) -> int {
    rules.index_of((ids[i], ids[i + 1]))
}

/// `i` is where the next merge happens: the pair there has the earliest
/// rule of all the pairs in `ids`, and stands nowhere further left.
pub open spec fn is_next_merge(rules: Seq<(u32, u32)>, ids: Seq<u32>, i: int) -> bool {
    &&& has_rule_at(rules, ids, i)
    &&& forall|j: int| #[trigger]
        has_rule_at(rules, ids, j) ==> rank_at(rules, ids, i) <= rank_at(rules, ids, j)
    &&& forall|j: int|
        0 <= j < i && #[trigger] has_rule_at(rules, ids, j) ==> rank_at(rules, ids, i) < rank_at(
            rules,
            ids,
            j,
        )
}

/// `ids` with the two ids at `i` replaced by `id`.
pub open spec fn merged(ids: Seq<u32>, i: int, id: u32) -> Seq<u32> {
    ids.update(i, id).remove(i + 1)
}

/// The ids that a pretoken ends as: as long as some pair has a rule, the
/// pair with the earliest rule is merged at its leftmost place.
pub open spec fn encode_chunk(rules: Seq<(u32, u32)>, ids: Seq<u32>) -> Seq<u32>
    decreases ids.len(),
{
    if exists|i: int| is_next_merge(rules, ids, i) {
        let i = choose|i: int| is_next_merge(rules, ids, i);
        encode_chunk(rules, merged(ids, i, (256 + rank_at(rules, ids, i)) as u32))
    } else {
        ids
    }
}

/// There is one place at most where the next merge happens.
pub proof fn lemma_next_merge_unique(rules: Seq<(u32, u32)>, ids: Seq<u32>, i: int, j: int)
    requires
        is_next_merge(rules, ids, i),
        is_next_merge(rules, ids, j),
    ensures
        i == j,
{
}

/// The ids of the bytes from `start` to `end`.
pub fn word_of(bytes: &[u8], start: usize, end: usize) -> (word: Vec<u32>)
    requires
        start <= end <= bytes@.len(),
    ensures
        word@ == byte_ids(bytes@.subrange(start as int, end as int)),
{
    let mut word: Vec<u32> = Vec::new();
    let mut i: usize = start;
    while i < end
        invariant
            start <= i <= end <= bytes@.len(),
            word@ == byte_ids(bytes@.subrange(start as int, i as int)),
        decreases end - i,
    {
        word.push(bytes[i] as u32);
        i += 1;
        assert(word@ =~= byte_ids(bytes@.subrange(start as int, i as int)));
    }
    word
}

/// Looks for the next merge in `ids`: the place and the id that the pair
/// there becomes, or `None` where no pair has a rule.
pub fn find_next_merge(store: &VocabStore, ids: &Vec<u32>) -> (r: Option<(usize, u32)>)
    requires
        store.wf(),
    ensures
        match r {
            Some((at, id)) => is_next_merge(store@, ids@, at as int) && id == 256 + rank_at(
                store@,
                ids@,
                at as int,
            ),
            None => forall|i: int| !has_rule_at(store@, ids@, i),
        },
{
    let mut best: Option<(usize, u32)> = None;
    let mut i: usize = 0;
    proof {
        store.lemma_wf_rules();
    }
    if ids.len() < 2 {
        return None;
    }
    let last: usize = ids.len() - 1;
    while i < last
        invariant
            last == ids@.len() - 1,
            store.wf(),
            rules_valid(store@),
            i <= ids@.len(),
            match best {
                Some((at, id)) => {
                    &&& at < i
                    &&& has_rule_at(store@, ids@, at as int)
                    &&& id == 256 + rank_at(store@, ids@, at as int)
                    &&& forall|j: int|
                        0 <= j < i && #[trigger] has_rule_at(store@, ids@, j) ==> rank_at(
                            store@,
                            ids@,
                            at as int,
                        ) <= rank_at(store@, ids@, j)
                    &&& forall|j: int|
                        0 <= j < at && #[trigger] has_rule_at(store@, ids@, j) ==> rank_at(
                            store@,
                            ids@,
                            at as int,
                        ) < rank_at(store@, ids@, j)
                },
                None => forall|j: int| 0 <= j < i ==> !has_rule_at(store@, ids@, j),
            },
        decreases ids@.len() - i,
    {
        let found = store.rule_for(ids[i], ids[i + 1]);
        proof {
            let pair = (ids@[i as int], ids@[i + 1]);
            if store@.contains(pair) {
                let k = store@.index_of(pair);
                assert(0 <= k < store@.len() && store@[k] == pair);
            }
        }
        match found {
            Some(id) => {
                match best {
                    Some((_, least)) => {
                        if id < least {
                            best = Some((i, id));
                        }
                    },
                    None => {
                        best = Some((i, id));
                    },
                }
            },
            None => {},
        }
        i += 1;
    }
    best
}

/// Applies the merge rules to the ids of one pretoken, until no two ids
/// side by side have a rule.
pub fn encode_word(store: &VocabStore, word: Vec<u32>) -> (ids: Vec<u32>)
    requires
        store.wf(),
    ensures
        ids@ == encode_chunk(store@, word@),
        forall|i: int| !has_rule_at(store@, ids@, i),
{
    let mut ids = word;
    loop
        invariant
            store.wf(),
            encode_chunk(store@, ids@) == encode_chunk(store@, word@),
        decreases ids@.len(),
    {
        match find_next_merge(store, &ids) {
            Some((at, id)) => {
                proof {
                    let c = choose|i: int| is_next_merge(store@, ids@, i);
                    lemma_next_merge_unique(store@, ids@, c, at as int);
                    assert(has_rule_at(store@, ids@, at as int));
                }
                assert(at + 1 < ids.len());
                ids.set(at, id);
                ids.remove(at + 1);
            },
            None => {
                assert(forall|i: int| !is_next_merge(store@, ids@, i));
                return ids;
            },
        }
    }
}

} // verus!
