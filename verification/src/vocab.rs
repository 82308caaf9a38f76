//! The vocabulary: the merge rules in the order of their creation, the bytes
//! that every id stands for, and the lookup from a pair to its rule.

use std::collections::HashMap;
use vstd::prelude::*;

verus! {

/// What can go wrong when a model is changed or read.
#[derive(Clone, Copy, Debug, PartialEq, Eq, Structural)]
pub enum ModelError {
    /// The pair already has a merge rule.
    DuplicatePair,
    /// An element of the pair has no entry in the vocabulary.
    UnknownId,
    /// A persisted model does not describe a vocabulary.
    CorruptModel,
}

/// The key under which the rule of the pair `(a, b)` is indexed.
pub open spec fn pair_key(a: u32, b: u32) -> u64 {
    (a as u64 * 0x1_0000_0000 + b as u64) as u64
}

/// Different pairs have different keys.
pub proof fn lemma_pair_key_injective(a: u32, b: u32, c: u32, d: u32)
    requires
        pair_key(a, b) == pair_key(c, d),
    ensures
        a == c,
        b == d,
{
}

/// The rules are such as training creates them: rule `i` creates id
/// `256 + i` from two ids that exist before it, no pair has two rules, and
/// every id fits in 32 bits.
pub open spec fn rules_valid(rules: Seq<(u32, u32)>) -> bool {
    &&& 256 + rules.len() <= 0x1_0000_0000
    &&& forall|i: int|
        0 <= i < rules.len() ==> (#[trigger] rules[i]).0 < 256 + i && rules[i].1 < 256 + i
    &&& forall|i: int, j: int|
        0 <= i < j < rules.len() ==> #[trigger] rules[i] != #[trigger] rules[j]
}

/// The bytes that `id` stands for: the byte itself below 256, the two
/// operands' bytes one after the other for a merged id, nothing for an id
/// that the rules do not create.
pub open spec fn expansion(rules: Seq<(u32, u32)>, id: int) -> Seq<u8>
    decreases id,
{
    if 0 <= id < 256 {
        seq![id as u8]
    } else if 256 <= id < 256 + rules.len() {
        let pair = rules[id - 256];
        if pair.0 < id && pair.1 < id {
            expansion(rules, pair.0 as int) + expansion(rules, pair.1 as int)
        } else {
            Seq::empty()
        }
    } else {
        Seq::empty()
    }
}

/// The id that the rules give for `pair`, if they hold a rule for it.
pub open spec fn rule_of(rules: Seq<(u32, u32)>, pair: (u32, u32)) -> Option<u32> {
    if rules.contains(pair) {
        Some((256 + rules.index_of(pair)) as u32)
    } else {
        None
    }
}

/// A rule that is added leaves what the ids before it stand for.
pub proof fn lemma_expansion_push(rules: Seq<(u32, u32)>, pair: (u32, u32), id: int)
    requires
        id < 256 + rules.len(),
    ensures
        expansion(rules.push(pair), id) == expansion(rules, id),
    decreases id,
{
    if 256 <= id {
        let p = rules[id - 256];
        assert(rules.push(pair)[id - 256] == p);
        if p.0 < id && p.1 < id {
            lemma_expansion_push(rules, pair, p.0 as int);
            lemma_expansion_push(rules, pair, p.1 as int);
        }
    }
}

/// Appends `src` to `dst`.
pub fn append_bytes(dst: &mut Vec<u8>, src: &[u8])
    ensures
        final(dst)@ == old(dst)@ + src@,
{
    let mut i: usize = 0;
    while i < src.len()
        invariant
            i <= src@.len(),
            dst@ == old(dst)@ + src@.take(i as int),
        decreases src@.len() - i,
    {
        dst.push(src[i]);
        i += 1;
        assert(src@.take(i as int) == src@.take(i - 1).push(src@[i - 1]));
    }
    assert(src@.take(i as int) == src@);
}

/// The vocabulary of a tokenizer. Its view is the sequence of its merge
/// rules in the order of their creation; everything else follows from it.
#[derive(Debug)]
pub struct VocabStore {
    rules: Vec<(u32, u32)>,
    entries: Vec<Vec<u8>>,
    index: HashMap<u64, u32>,
}

impl View for VocabStore {
    type V = Seq<(u32, u32)>;

    closed spec fn view(&self) -> Seq<(u32, u32)> {
        self.rules@
    }
}

impl VocabStore {
    /// The three fields describe the same rules.
    pub closed spec fn wf(&self) -> bool {
        &&& rules_valid(self.rules@)
        &&& self.entries@.len() == 256 + self.rules@.len()
        &&& forall|id: int|
            0 <= id < self.entries@.len() ==> (#[trigger] self.entries@[id])@ == expansion(
                self.rules@,
                id,
            )
        &&& forall|a: u32, b: u32| #[trigger]
            self.index@.contains_key(pair_key(a, b)) <==> self.rules@.contains((a, b))
        &&& forall|i: int|
            0 <= i < self.rules@.len() ==> self.index@[pair_key(
                (#[trigger] self.rules@[i]).0,
                self.rules@[i].1,
            )] == 256 + i
    }

    /// Valid rules are what a well-formed store holds.
    pub proof fn lemma_wf_rules(&self)
        requires
            self.wf(),
        ensures
            rules_valid(self@),
    {
    }

    /// The number of entries as a number: 256 and one for each rule.
    pub open spec fn spec_size(&self) -> nat {
        256 + self@.len()
    }

    /// A store with the 256 single-byte entries and no merge rule.
    pub fn init() -> (store: VocabStore)
        ensures
            store.wf(),
            store@ == Seq::<(u32, u32)>::empty(),
    {
        let mut entries: Vec<Vec<u8>> = Vec::new();
        let mut n: usize = 0;
        while n < 256
            invariant
                n <= 256,
                entries@.len() == n,
                forall|id: int| 0 <= id < n ==> (#[trigger] entries@[id])@ == seq![id as u8],
            decreases 256 - n,
        {
            let mut entry: Vec<u8> = Vec::new();
            entry.push(n as u8);
            entries.push(entry);
            n += 1;
        }
        let store = VocabStore { rules: Vec::new(), entries, index: HashMap::new() };
        proof {
            assert forall|a: u32, b: u32| #[trigger]
                store.index@.contains_key(pair_key(a, b)) <==> store.rules@.contains(
                    (a, b),
                ) by {}
        }
        store
    }

    /// The number of entries: 256 and one for each rule.
    pub fn size(&self) -> (n: usize)
        requires
            self.wf(),
        ensures
            n == self.spec_size(),
    {
        self.entries.len()
    }

    /// The number of merge rules.
    pub fn merge_count(&self) -> (n: usize)
        requires
            self.wf(),
        ensures
            n == self@.len(),
    {
        self.rules.len()
    }

    /// The pair that rule `i` merges.
    pub fn merge_at(&self, i: usize) -> (pair: (u32, u32))
        requires
            self.wf(),
            i < self@.len(),
        ensures
            pair == self@[i as int],
    {
        self.rules[i]
    }

    /// The bytes that `id` stands for; `None` where the store has no entry
    /// for it.
    pub fn bytes_of(&self, id: u32) -> (bytes: Option<&Vec<u8>>)
        requires
            self.wf(),
        ensures
            bytes is Some <==> id < self.spec_size(),
            bytes is Some ==> bytes->0@ == expansion(self@, id as int),
    {
        if (id as usize) < self.entries.len() {
            Some(&self.entries[id as usize])
        } else {
            None
        }
    }

    /// The id that the rule for `(a, b)` creates, if there is such a rule.
    pub fn rule_for(&self, a: u32, b: u32) -> (id: Option<u32>)
        requires
            self.wf(),
        ensures
            id == rule_of(self@, (a, b)),
    {
        let key = pack(a, b);
        match self.index.get(&key) {
            Some(found) => {
                proof {
                    let i = self.rules@.index_of((a, b));
                    assert(self.rules@.contains((a, b)));
                    assert(0 <= i < self.rules@.len() && self.rules@[i] == (a, b));
                }
                Some(*found)
            },
            None => None,
        }
    }

    /// Adds the rule that `pair` becomes `new_id`, which has to be the next
    /// unused id, with the entry for `new_id`: the bytes of the pair's first
    /// element followed by those of its second. A pair that has a rule, or
    /// that names an id without an entry, is refused and the store stays as
    /// it is.
    pub fn add_merge(&mut self, pair: (u32, u32), new_id: u32) -> (r: Result<(), ModelError>)
        requires
            old(self).wf(),
            new_id == old(self).spec_size(),
        ensures
            final(self).wf(),
            rule_of(old(self)@, pair) is Some ==> r == Err::<(), ModelError>(
                ModelError::DuplicatePair,
            ),
            rule_of(old(self)@, pair) is None && (pair.0 >= new_id || pair.1 >= new_id) ==> r
                == Err::<(), ModelError>(ModelError::UnknownId),
            rule_of(old(self)@, pair) is None && pair.0 < new_id && pair.1 < new_id ==> r is Ok,
            r is Ok ==> final(self)@ == old(self)@.push(pair),
            r is Err ==> final(self)@ == old(self)@,
    {
        if self.rule_for(pair.0, pair.1).is_some() {
            return Err(ModelError::DuplicatePair);
        }
        let size = self.entries.len();
        if pair.0 as usize >= size || pair.1 as usize >= size {
            return Err(ModelError::UnknownId);
        }
        let mut bytes: Vec<u8> = Vec::new();
        append_bytes(&mut bytes, self.entries[pair.0 as usize].as_slice());
        append_bytes(&mut bytes, self.entries[pair.1 as usize].as_slice());
        let key = pack(pair.0, pair.1);
        proof {
            let before = self.rules@;
            let after = before.push(pair);
            assert(old(self).wf());
            assert forall|i: int, j: int| 0 <= i < j < after.len() implies #[trigger] after[i]
                != #[trigger] after[j] by {
                if j == before.len() {
                    assert(before[i] == after[i]);
                    assert(before.contains(before[i]));
                }
            }
            assert(rules_valid(after));
            assert forall|id: int| 0 <= id < 256 + after.len() implies expansion(after, id) == (
            if id < 256 + before.len() {
                expansion(before, id)
            } else {
                bytes@
            }) by {
                if id < 256 + before.len() {
                    lemma_expansion_push(before, pair, id);
                } else {
                    lemma_expansion_push(before, pair, pair.0 as int);
                    lemma_expansion_push(before, pair, pair.1 as int);
                }
            }
        }
        self.rules.push(pair);
        self.entries.push(bytes);
        self.index.insert(key, new_id);
        proof {
            let before = old(self).rules@;
            let after = self.rules@;
            assert forall|a: u32, b: u32| #[trigger]
                self.index@.contains_key(pair_key(a, b)) <==> after.contains((a, b)) by {
                if (a, b) == pair {
                    assert(after[before.len() as int] == pair);
                } else {
                    if pair_key(a, b) == key {
                        lemma_pair_key_injective(a, b, pair.0, pair.1);
                    }
                    if before.contains((a, b)) {
                        let i = before.index_of((a, b));
                        assert(after[i] == (a, b));
                    }
                    if after.contains((a, b)) {
                        let i = after.index_of((a, b));
                        assert(before[i] == (a, b));
                    }
                }
            }
            assert forall|i: int| 0 <= i < after.len() implies self.index@[pair_key(
                (#[trigger] after[i]).0,
                after[i].1,
            )] == 256 + i by {
                if i < before.len() {
                    assert(before[i] == after[i]);
                    assert(before.contains(before[i]));
                    if pair_key(after[i].0, after[i].1) == key {
                        lemma_pair_key_injective(after[i].0, after[i].1, pair.0, pair.1);
                    }
                }
            }
        }
        Ok(())
    }
}

/// Computes the key of a pair.
pub fn pack(a: u32, b: u32) -> (key: u64)
    ensures
        key == pair_key(a, b),
{
    (a as u64) * 0x1_0000_0000u64 + (b as u64)
}

} // verus!
