//! Decoding: the bytes that a sequence of ids stands for, and the text that
//! those bytes are.

use crate::encode::{byte_ids, encode_chunk, has_rule_at, is_next_merge, merged, rank_at};
use crate::vocab::{expansion, rules_valid, VocabStore};
use vstd::prelude::*;
use vstd::utf8::{decode_utf8, valid_utf8};

verus! {

/// The text that `String::from_utf8_lossy` makes of bytes that are not
/// valid UTF-8: the one in which each invalid sequence is replaced by
/// U+FFFD.
pub uninterp spec fn lossy_text(bytes: Seq<u8>) -> Seq<char>;

/// The text that bytes are read as: the text that they encode where they
/// are valid UTF-8, and else the text with replacement characters.
pub open spec fn text_of(bytes: Seq<u8>) -> Seq<char> {
    if valid_utf8(bytes) {
        decode_utf8(bytes)
    } else {
        lossy_text(bytes)
    }
}

/// `String::from_utf8_lossy`: reads bytes as text. Trusted: valid UTF-8
/// gives the text that it encodes; for other bytes the result depends on
/// the bytes alone.
#[verifier::external_body]
pub(crate) fn read_lossy(bytes: &[u8]) -> (text: String)
    ensures
        valid_utf8(bytes@) ==> text@ == decode_utf8(bytes@),
        !valid_utf8(bytes@) ==> text@ == lossy_text(bytes@),
{
    String::from_utf8_lossy(bytes).into_owned()
}

/// The bytes that the ids stand for, one id after the other. An id that
/// has no entry stands for nothing.
pub open spec fn expand_all(rules: Seq<(u32, u32)>, ids: Seq<u32>) -> Seq<u8>
    decreases ids.len(),
{
    if ids.len() == 0 {
        Seq::empty()
    } else {
        expand_all(rules, ids.drop_last()) + expansion(rules, ids.last() as int)
    }
}

/// The bytes of two runs of ids are the bytes of the one followed by the
/// bytes of the other.
pub proof fn lemma_expand_concat(rules: Seq<(u32, u32)>, a: Seq<u32>, b: Seq<u32>)
    ensures
        expand_all(rules, a + b) == expand_all(rules, a) + expand_all(rules, b),
    decreases b.len(),
{
    if b.len() == 0 {
        assert(a + b =~= a);
        assert(expand_all(rules, a) + expand_all(rules, b) =~= expand_all(rules, a));
    } else {
        lemma_expand_concat(rules, a, b.drop_last());
        assert((a + b).drop_last() =~= a + b.drop_last());
        assert(expand_all(rules, a + b) =~= expand_all(rules, a) + expand_all(rules, b));
    }
}

/// The ids of bytes stand for those bytes.
pub proof fn lemma_expand_bytes(rules: Seq<(u32, u32)>, bytes: Seq<u8>)
    ensures
        expand_all(rules, byte_ids(bytes)) == bytes,
    decreases bytes.len(),
{
    if bytes.len() > 0 {
        lemma_expand_bytes(rules, bytes.drop_last());
        assert(byte_ids(bytes).drop_last() =~= byte_ids(bytes.drop_last()));
        assert(expand_all(rules, byte_ids(bytes)) =~= bytes);
    } else {
        assert(expand_all(rules, byte_ids(bytes)) =~= bytes);
    }
}

/// A merge leaves the bytes that the ids stand for.
pub proof fn lemma_expand_merged(rules: Seq<(u32, u32)>, ids: Seq<u32>, i: int)
    requires
        rules_valid(rules),
        has_rule_at(rules, ids, i),
    ensures
        expand_all(rules, merged(ids, i, (256 + rank_at(rules, ids, i)) as u32)) == expand_all(
            rules,
            ids,
        ),
{
    let k = rank_at(rules, ids, i);
    let id = (256 + k) as u32;
    let pair = (ids[i], ids[i + 1]);
    assert(0 <= k < rules.len() && rules[k] == pair);
    let left = ids.subrange(0, i);
    let right = ids.subrange(i + 2, ids.len() as int);
    assert(ids =~= left + seq![ids[i]] + seq![ids[i + 1]] + right);
    assert(merged(ids, i, id) =~= left + seq![id] + right);
    lemma_expand_concat(rules, left + seq![id], right);
    lemma_expand_concat(rules, left, seq![id]);
    lemma_expand_concat(rules, left + seq![ids[i]] + seq![ids[i + 1]], right);
    lemma_expand_concat(rules, left + seq![ids[i]], seq![ids[i + 1]]);
    lemma_expand_concat(rules, left, seq![ids[i]]);
    lemma_expand_one(rules, id);
    lemma_expand_one(rules, ids[i]);
    lemma_expand_one(rules, ids[i + 1]);
    assert(expansion(rules, id as int) == expansion(rules, pair.0 as int) + expansion(
        rules,
        pair.1 as int,
    ));
    assert(expand_all(rules, left) + expansion(rules, id as int) =~= expand_all(rules, left)
        + expansion(rules, pair.0 as int) + expansion(rules, pair.1 as int));
}

/// One id stands for its entry.
pub proof fn lemma_expand_one(rules: Seq<(u32, u32)>, id: u32)
    ensures
        expand_all(rules, seq![id]) == expansion(rules, id as int),
{
    let one = seq![id];
    assert(one.drop_last() =~= Seq::<u32>::empty());
    assert(expand_all(rules, one.drop_last()) =~= Seq::<u8>::empty());
    assert(one.last() == id);
    assert(expand_all(rules, one) =~= expansion(rules, id as int));
}

/// Encoding a pretoken leaves the bytes that its ids stand for.
pub proof fn lemma_encode_chunk_expands(rules: Seq<(u32, u32)>, ids: Seq<u32>)
    requires
        rules_valid(rules),
    ensures
        expand_all(rules, encode_chunk(rules, ids)) == expand_all(rules, ids),
    decreases ids.len(),
{
    if exists|i: int| is_next_merge(rules, ids, i) {
        let i = choose|i: int| is_next_merge(rules, ids, i);
        let next = merged(ids, i, (256 + rank_at(rules, ids, i)) as u32);
        lemma_expand_merged(rules, ids, i);
        lemma_encode_chunk_expands(rules, next);
    }
}

/// The bytes that the ids stand for. An id without an entry is passed
/// over.
pub fn decode_bytes(store: &VocabStore, ids: &[u32]) -> (bytes: Vec<u8>)
    requires
        store.wf(),
    ensures
        bytes@ == expand_all(store@, ids@),
{
    let mut bytes: Vec<u8> = Vec::new();
    let mut i: usize = 0;
    while i < ids.len()
        invariant
            store.wf(),
            i <= ids@.len(),
            bytes@ == expand_all(store@, ids@.take(i as int)),
        decreases ids@.len() - i,
    {
        proof {
            assert(ids@.take(i + 1).drop_last() =~= ids@.take(i as int));
        }
        match store.bytes_of(ids[i]) {
            Some(entry) => {
                crate::vocab::append_bytes(&mut bytes, entry.as_slice());
            },
            None => {
                assert(bytes@ + expansion(store@, ids@[i as int] as int) =~= bytes@);
            },
        }
        i += 1;
    }
    proof {
        assert(ids@.take(i as int) =~= ids@);
    }
    bytes
}

/// The text that the ids stand for: their bytes read as UTF-8, with the
/// replacement character wherever they are not.
pub fn decode_text(store: &VocabStore, ids: &[u32]) -> (text: String)
    requires
        store.wf(),
    ensures
        text@ == text_of(expand_all(store@, ids@)),
{
    let bytes = decode_bytes(store, ids);
    read_lossy(bytes.as_slice())
}

} // verus!
