//! The persisted form of a model: its entries and its merge rules as plain
//! values, how a vocabulary is written into it, and how one is read from
//! it and checked.

use crate::keys::{id_of, key_id, key_of};
use crate::vocab::{append_bytes, expansion, rule_of, rules_valid, ModelError, VocabStore};
use vstd::prelude::*;

verus! {

/// A model as it is persisted.
#[derive(Clone, Debug, PartialEq, Eq)]
pub struct PersistedModel {
    /// The entries: the decimal text of an id and the bytes that the id
    /// stands for, in any order.
    pub vocab: Vec<(String, Vec<u8>)>,
    /// The merge rules in the order of their creation: the two ids of the
    /// pair and the id that they become.
    pub merges: Vec<(u32, u32, u32)>,
}

/// The pairs of the persisted merges, in their order.
pub open spec fn rules_in(merges: Seq<(u32, u32, u32)>) -> Seq<(u32, u32)> {
    Seq::new(merges.len(), |i: int| (merges[i].0, merges[i].1))
}

/// The persisted merges are valid rules, and each names the id that its
/// place gives it.
pub open spec fn merges_valid(merges: Seq<(u32, u32, u32)>) -> bool {
    &&& rules_valid(rules_in(merges))
    &&& forall|i: int| 0 <= i < merges.len() ==> (#[trigger] merges[i]).2 == 256 + i
}

/// The id that a persisted entry is for, if its key names one.
pub open spec fn entry_id(entry: (String, Vec<u8>)) -> Option<u32> {
    key_id(entry.0@)
}

/// One of the first `k` persisted entries is for `id`.
pub open spec fn entry_before(vocab: Seq<(String, Vec<u8>)>, k: int, id: int) -> bool {
    exists|j: int| 0 <= j < k && entry_id(#[trigger] vocab[j]) == Some(id as u32)
}

/// The persisted entry is one of the rules: its key names an id that they
/// create, and its bytes are those that the id stands for.
pub open spec fn entry_fits(entry: (String, Vec<u8>), rules: Seq<(u32, u32)>) -> bool {
    match entry_id(entry) {
        Some(id) => id < 256 + rules.len() && entry.1@ == expansion(rules, id as int),
        None => false,
    }
}

/// The persisted entries are those of the rules: one for each id, under
/// the decimal text of the id and with the bytes that the id stands for,
/// and none besides.
pub open spec fn vocab_valid(vocab: Seq<(String, Vec<u8>)>, rules: Seq<(u32, u32)>) -> bool {
    &&& forall|k: int| 0 <= k < vocab.len() ==> entry_fits(#[trigger] vocab[k], rules)
    &&& forall|k: int, l: int|
        0 <= k < l < vocab.len() ==> entry_id(#[trigger] vocab[k]) != entry_id(
            #[trigger] vocab[l],
        )
    &&& forall|id: int|
        0 <= id < 256 + rules.len() ==> #[trigger] entry_before(vocab, vocab.len() as int, id)
}

/// The persisted model describes a vocabulary.
pub open spec fn persisted_valid(model: PersistedModel) -> bool {
    merges_valid(model.merges@) && vocab_valid(model.vocab@, rules_in(model.merges@))
}

/// `model` is what the rules are written as: the merges in their order,
/// and the entries in the order of their ids.
pub open spec fn written_as(rules: Seq<(u32, u32)>, model: PersistedModel) -> bool {
    &&& model.merges@.len() == rules.len()
    &&& forall|i: int|
        0 <= i < rules.len() ==> #[trigger] model.merges@[i] == (
            rules[i].0,
            rules[i].1,
            (256 + i) as u32,
        )
    &&& model.vocab@.len() == 256 + rules.len()
    &&& forall|id: int|
        0 <= id < 256 + rules.len() ==> entry_id(#[trigger] model.vocab@[id]) == Some(id as u32)
            && model.vocab@[id].1@ == expansion(rules, id)
}

/// What valid rules are written as is a valid model that holds them.
pub proof fn lemma_written_valid(rules: Seq<(u32, u32)>, model: PersistedModel)
    requires
        rules_valid(rules),
        written_as(rules, model),
    ensures
        persisted_valid(model),
        rules_in(model.merges@) == rules,
{
    assert(rules_in(model.merges@) =~= rules);
    let vocab = model.vocab@;
    assert forall|id: int| 0 <= id < 256 + rules.len() implies #[trigger] entry_before(
        vocab,
        vocab.len() as int,
        id,
    ) by {
        assert(entry_id(vocab[id]) == Some(id as u32));
    }
}

/// Whether two runs of bytes are the same.
pub fn same_bytes(a: &[u8], b: &[u8]) -> (r: bool)
    ensures
        r == (a@ == b@),
{
    if a.len() != b.len() {
        return false;
    }
    let mut i: usize = 0;
    while i < a.len()
        invariant
            a@.len() == b@.len(),
            i <= a@.len(),
            forall|j: int| 0 <= j < i ==> a@[j] == b@[j],
        decreases a@.len() - i,
    {
        if a[i] != b[i] {
            return false;
        }
        i += 1;
    }
    assert(a@ =~= b@);
    true
}

/// Writes the vocabulary as a persisted model: the merges in the order of
/// their creation, each with its id, and the entries in the order of their
/// ids.
pub fn export_store(store: &VocabStore) -> (model: PersistedModel)
    requires
        store.wf(),
    ensures
        written_as(store@, model),
        persisted_valid(model),
        rules_in(model.merges@) == store@,
{
    proof {
        store.lemma_wf_rules();
    }
    let mut merges: Vec<(u32, u32, u32)> = Vec::new();
    let count: usize = store.merge_count();
    let mut i: usize = 0;
    while i < count
        invariant
            store.wf(),
            rules_valid(store@),
            count == store@.len(),
            i <= count,
            merges@.len() == i,
            forall|j: int|
                0 <= j < i ==> #[trigger] merges@[j] == (
                    store@[j].0,
                    store@[j].1,
                    (256 + j) as u32,
                ),
        decreases count - i,
    {
        let pair = store.merge_at(i);
        let id: u32 = (i as u64 + 256) as u32;
        merges.push((pair.0, pair.1, id));
        i += 1;
    }
    let mut vocab: Vec<(String, Vec<u8>)> = Vec::new();
    let size: usize = store.size();
    let mut n: usize = 0;
    while n < size
        invariant
            store.wf(),
            rules_valid(store@),
            size == 256 + store@.len(),
            n <= size,
            vocab@.len() == n,
            forall|id: int|
                0 <= id < n ==> entry_id(#[trigger] vocab@[id]) == Some(id as u32)
                    && vocab@[id].1@ == expansion(store@, id),
        decreases size - n,
    {
        let id: u32 = n as u32;
        let mut bytes: Vec<u8> = Vec::new();
        match store.bytes_of(id) {
            Some(entry) => {
                append_bytes(&mut bytes, entry.as_slice());
            },
            None => {},
        }
        assert(bytes@ =~= expansion(store@, n as int));
        vocab.push((key_of(id), bytes));
        n += 1;
    }
    let model = PersistedModel { vocab, merges };
    proof {
        lemma_written_valid(store@, model);
    }
    model
}

/// Reads a vocabulary from a persisted model. The model is refused as
/// corrupt unless its merges are valid rules in the order of their ids,
/// and its entries are exactly those of these rules.
pub fn import_store(model: &PersistedModel) -> (r: Result<VocabStore, ModelError>)
    ensures
        r is Ok <==> persisted_valid(*model),
        r matches Ok(store) ==> store.wf() && store@ == rules_in(model.merges@),
        r is Err ==> r == Err::<VocabStore, ModelError>(ModelError::CorruptModel),
{
    let ghost rules = rules_in(model.merges@);
    let mut store = VocabStore::init();
    let mut i: usize = 0;
    while i < model.merges.len()
        invariant
            rules == rules_in(model.merges@),
            store.wf(),
            i <= model.merges@.len(),
            store@ == rules.take(i as int),
            forall|j: int| 0 <= j < i ==> (#[trigger] model.merges@[j]).2 == 256 + j,
        decreases model.merges@.len() - i,
    {
        let merge = model.merges[i];
        let size = store.size();
        if merge.2 as u64 != size as u64 {
            return Err(ModelError::CorruptModel);
        }
        let ghost before = store@;
        match store.add_merge((merge.0, merge.1), merge.2) {
            Ok(()) => {
                assert(rules.take(i + 1) =~= before.push(rules[i as int]));
            },
            Err(_) => {
                proof {
                    let pair = (merge.0, merge.1);
                    assert(rules[i as int] == pair);
                    if rule_of(before, pair) is Some {
                        let j = before.index_of(pair);
                        assert(0 <= j < i && before[j] == pair);
                        assert(rules[j] == pair);
                    }
                    assert(!rules_valid(rules));
                }
                return Err(ModelError::CorruptModel);
            },
        }
        i += 1;
    }
    proof {
        assert(rules.take(i as int) =~= rules);
        store.lemma_wf_rules();
    }
    let size: usize = store.size();
    let mut seen: Vec<bool> = Vec::new();
    let mut n: usize = 0;
    while n < size
        invariant
            n <= size,
            seen@.len() == n,
            forall|id: int| 0 <= id < n ==> !(#[trigger] seen@[id]),
        decreases size - n,
    {
        seen.push(false);
        n += 1;
    }
    let mut k: usize = 0;
    while k < model.vocab.len()
        invariant
            rules == rules_in(model.merges@),
            store.wf(),
            store@ == rules,
            size == 256 + rules.len(),
            merges_valid(model.merges@),
            k <= model.vocab@.len(),
            seen@.len() == size,
            forall|id: int|
                0 <= id < size ==> (#[trigger] seen@[id] <==> entry_before(
                    model.vocab@,
                    k as int,
                    id,
                )),
            forall|j: int| 0 <= j < k ==> entry_fits(#[trigger] model.vocab@[j], rules),
            forall|j: int, l: int|
                0 <= j < l < k ==> entry_id(#[trigger] model.vocab@[j]) != entry_id(
                    #[trigger] model.vocab@[l],
                ),
        decreases model.vocab@.len() - k,
    {
        let id: u32 = match id_of(model.vocab[k].0.as_str()) {
            Some(id) => id,
            None => {
                assert(!entry_fits(model.vocab@[k as int], rules));
                return Err(ModelError::CorruptModel);
            },
        };
        assert(entry_id(model.vocab@[k as int]) == Some(id));
        let known = match store.bytes_of(id) {
            Some(entry) => same_bytes(entry.as_slice(), model.vocab[k].1.as_slice()),
            None => false,
        };
        if !known {
            assert(!entry_fits(model.vocab@[k as int], rules));
            return Err(ModelError::CorruptModel);
        }
        if seen[id as usize] {
            proof {
                let j = choose|j: int|
                    0 <= j < k && entry_id(#[trigger] model.vocab@[j]) == Some(id);
                assert(entry_id(model.vocab@[j]) == entry_id(model.vocab@[k as int]));
            }
            return Err(ModelError::CorruptModel);
        }
        let ghost marked = seen@;
        seen.set(id as usize, true);
        proof {
            assert forall|other: int| 0 <= other < size implies (#[trigger] seen@[other]
                <==> entry_before(model.vocab@, k + 1, other)) by {
                if other == id {
                    assert(entry_id(model.vocab@[k as int]) == Some(other as u32));
                } else {
                    assert(seen@[other] == marked[other]);
                    if entry_before(model.vocab@, k as int, other) {
                        let j = choose|j: int|
                            0 <= j < k && entry_id(#[trigger] model.vocab@[j]) == Some(
                                other as u32,
                            );
                        assert(0 <= j < k + 1 && entry_id(model.vocab@[j]) == Some(other as u32));
                    }
                    if entry_before(model.vocab@, k + 1, other) {
                        let j = choose|j: int|
                            0 <= j < k + 1 && entry_id(#[trigger] model.vocab@[j]) == Some(
                                other as u32,
                            );
                        assert(j != k);
                        assert(0 <= j < k && entry_id(model.vocab@[j]) == Some(other as u32));
                    }
                }
            }
        }
        k += 1;
    }
    let mut m: usize = 0;
    while m < size
        invariant
            m <= size,
            size == 256 + rules_in(model.merges@).len(),
            seen@.len() == size,
            k == model.vocab@.len(),
            forall|id: int|
                0 <= id < size ==> (#[trigger] seen@[id] <==> entry_before(
                    model.vocab@,
                    k as int,
                    id,
                )),
            forall|id: int|
                0 <= id < m ==> #[trigger] entry_before(model.vocab@, k as int, id),
        decreases size - m,
    {
        if !seen[m] {
            assert(!entry_before(model.vocab@, model.vocab@.len() as int, m as int));
            return Err(ModelError::CorruptModel);
        }
        m += 1;
    }
    Ok(store)
}

} // verus!
