//! The segmenter: cuts a text into pretokens, the pieces inside which merges
//! stay. The cuts come from a regular expression; the pieces always cover
//! the whole text.

use regex::Regex;
use vstd::prelude::*;

verus! {

/// The pattern that cuts a text into pretokens. Its alternatives are tried
/// in this order: a contraction suffix; a run of letters with at most one
/// other character before it, which is no line break; up to three digits;
/// a run of punctuation with at most one space before it and any line
/// breaks after it; a run of whitespace, which is taken whole. Every
/// character of a text begins a match of one of them, so the matches of
/// this pattern leave nothing between them.
pub const SPLIT_PATTERN: &'static str =
    r"(?i:'s|'t|'re|'ve|'m|'ll|'d)|[^\r\n\p{L}\p{N}]?\p{L}+|\p{N}{1,3}| ?[^\s\p{L}\p{N}]+[\r\n]*|\s+[\r\n]*";

/// A compiled regular expression of the `regex` crate, opaque to the proofs.
#[verifier::external_type_specification]
#[verifier::external_body]
pub struct ExRegex(regex::Regex);

/// What a regular expression was compiled from, which is all that its
/// matches depend on besides the text: for one that `Regex::new` made, the
/// text of its pattern.
pub uninterp spec fn compiled_from(re: Regex) -> Seq<char>;

/// The byte ranges at which a pattern matches in a text, each as its start
/// and its end, in the order in which `Regex::find_iter` yields them.
pub uninterp spec fn pattern_matches(pattern: Seq<char>, text: Seq<char>) -> Seq<(usize, usize)>;

/// `Regex::new`: compiles `pattern`. Trusted: the result, where there is
/// one, is a regular expression compiled from this pattern. Nothing is
/// claimed about which patterns compile.
#[verifier::external_body]
fn compile_pattern(pattern: &str) -> (r: Option<Regex>)
    ensures
        r matches Some(re) ==> compiled_from(re) == pattern@,
{
    Regex::new(pattern).ok()
}

/// `Regex::find_iter` with `Match::start` and `Match::end`: the matches of
/// `re` in `text` as byte ranges. Trusted: they depend on nothing but the
/// pattern that `re` was compiled from and the text. Nothing is claimed
/// about where they lie.
#[verifier::external_body]
fn find_matches(re: &Regex, text: &str) -> (r: Vec<(usize, usize)>)
    ensures
        r@ == pattern_matches(compiled_from(*re), text@),
{
    re.find_iter(text).map(|m| (m.start(), m.end())).collect()
}

/// The bytes of a text: its UTF-8 encoding.
pub open spec fn text_bytes(text: Seq<char>) -> Seq<u8> {
    vstd::utf8::encode_utf8(text)
}

/// The piece between `cursor` and `to`, if there is anything between them.
pub open spec fn gap(cursor: usize, to: usize) -> Seq<(usize, usize)> {
    if cursor < to {
        seq![(cursor, to)]
    } else {
        Seq::empty()
    }
}

/// The pieces that cover the text from `cursor` to `len`, given the matches
/// that are still to come. A match that begins at or after the cursor and
/// lies in the text is a piece, and so is what lies between the cursor and
/// its start; any other match is passed over. What is left after the last
/// match is the last piece.
pub open spec fn cover_from(matches: Seq<(usize, usize)>, cursor: usize, len: usize) -> Seq<
    (usize, usize),
>
    decreases matches.len(),
{
    if matches.len() == 0 {
        gap(cursor, len)
    } else {
        let m = matches[0];
        if cursor <= m.0 && m.0 <= m.1 && m.1 <= len {
            gap(cursor, m.0) + seq![m] + cover_from(matches.drop_first(), m.1, len)
        } else {
            cover_from(matches.drop_first(), cursor, len)
        }
    }
}

/// The pretokens of a text of `len` bytes in which a pattern matched at
/// `matches`.
pub open spec fn chunks_of(matches: Seq<(usize, usize)>, len: usize) -> Seq<(usize, usize)> {
    cover_from(matches, 0, len)
}

/// The pieces lie one after the other and cover exactly the bytes from
/// `from` to `to`.
pub open spec fn tiles(chunks: Seq<(usize, usize)>, from: int, to: int) -> bool {
    &&& from <= to
    &&& chunks.len() == 0 ==> from == to
    &&& chunks.len() > 0 ==> chunks[0].0 == from && chunks[chunks.len() - 1].1 == to
    &&& forall|i: int|
        0 <= i < chunks.len() ==> from <= (#[trigger] chunks[i]).0 <= chunks[i].1 <= to
    &&& forall|i: int|
        0 <= i < chunks.len() - 1 ==> (#[trigger] chunks[i]).1 == chunks[i + 1].0
}

/// Every piece lies in a text of `len` bytes.
pub open spec fn within(chunks: Seq<(usize, usize)>, len: int) -> bool {
    forall|i: int| 0 <= i < chunks.len() ==> (#[trigger] chunks[i]).0 <= chunks[i].1 <= len
}

/// Two runs of pieces that meet make one run.
pub proof fn lemma_tiles_join(
    left: Seq<(usize, usize)>,
    right: Seq<(usize, usize)>,
    from: int,
    mid: int,
    to: int,
)
    requires
        tiles(left, from, mid),
        tiles(right, mid, to),
    ensures
        tiles(left + right, from, to),
{
    let all = left + right;
    assert forall|i: int| 0 <= i < all.len() implies from <= (#[trigger] all[i]).0 <= all[i].1
        <= to by {
        if i < left.len() {
            assert(all[i] == left[i]);
        } else {
            assert(all[i] == right[i - left.len()]);
        }
    }
    assert forall|i: int| 0 <= i < all.len() - 1 implies (#[trigger] all[i]).1 == all[i + 1].0 by {
        if i < left.len() - 1 {
            assert(all[i] == left[i]);
            assert(all[i + 1] == left[i + 1]);
        } else if i == left.len() - 1 {
            assert(all[i] == left[i]);
            assert(all[i + 1] == right[0]);
        } else {
            assert(all[i] == right[i - left.len()]);
            assert(all[i + 1] == right[i - left.len() + 1]);
        }
    }
    if all.len() > 0 {
        if left.len() > 0 {
            assert(all[0] == left[0]);
        } else {
            assert(all[0] == right[0]);
        }
        if right.len() > 0 {
            assert(all[all.len() - 1] == right[right.len() - 1]);
        } else {
            assert(all[all.len() - 1] == left[left.len() - 1]);
        }
    }
}

/// Whatever the matches are, the pieces cover the text from the cursor to
/// its end, each byte once and in order.
pub proof fn lemma_cover_tiles(matches: Seq<(usize, usize)>, cursor: usize, len: usize)
    requires
        cursor <= len,
    ensures
        tiles(cover_from(matches, cursor, len), cursor as int, len as int),
    decreases matches.len(),
{
    if matches.len() == 0 {
        if cursor < len {
            assert(gap(cursor, len)[0] == (cursor, len));
        }
    } else {
        let m = matches[0];
        if cursor <= m.0 && m.0 <= m.1 && m.1 <= len {
            lemma_cover_tiles(matches.drop_first(), m.1, len);
            let head = gap(cursor, m.0) + seq![m];
            if cursor < m.0 {
                assert(head[0] == (cursor, m.0));
                assert(head[1] == m);
            } else {
                assert(head[0] == m);
            }
            assert(tiles(head, cursor as int, m.1 as int));
            lemma_tiles_join(
                head,
                cover_from(matches.drop_first(), m.1, len),
                cursor as int,
                m.1 as int,
                len as int,
            );
        } else {
            lemma_cover_tiles(matches.drop_first(), cursor, len);
        }
    }
}

/// The pretokens of a text of `len` bytes in which a pattern matched at
/// `matches`: the matches from left to right and what lies between them.
/// A match that does not follow the one before it, or that leaves the
/// text, is passed over, so that the pretokens follow one another from the
/// first byte of the text to its last whatever the matches are.
pub fn cover(matches: &Vec<(usize, usize)>, len: usize) -> (chunks: Vec<(usize, usize)>)
    ensures
        chunks@ == chunks_of(matches@, len),
        tiles(chunks@, 0, len as int),
{
    let mut out: Vec<(usize, usize)> = Vec::new();
    let mut cursor: usize = 0;
    let mut i: usize = 0;
    proof {
        assert(matches@.skip(0) =~= matches@);
        assert(out@ + cover_from(matches@, 0, len) =~= cover_from(matches@, 0, len));
    }
    while i < matches.len()
        invariant
            i <= matches@.len(),
            cursor <= len,
            chunks_of(matches@, len) == out@ + cover_from(matches@.skip(i as int), cursor, len),
        decreases matches@.len() - i,
    {
        let m = matches[i];
        proof {
            assert(matches@.skip(i as int)[0] == m);
            assert(matches@.skip(i as int).drop_first() == matches@.skip(i + 1));
        }
        let ghost before = out@;
        if cursor <= m.0 && m.0 <= m.1 && m.1 <= len {
            if cursor < m.0 {
                out.push((cursor, m.0));
            }
            out.push(m);
            proof {
                let rest = cover_from(matches@.skip(i + 1), m.1, len);
                assert(out@ == before + (gap(cursor, m.0) + seq![m]));
                assert(before + (gap(cursor, m.0) + seq![m] + rest) == out@ + rest);
            }
            cursor = m.1;
        }
        i += 1;
    }
    proof {
        assert(matches@.skip(i as int).len() == 0);
    }
    let ghost before = out@;
    if cursor < len {
        out.push((cursor, len));
    }
    proof {
        assert(out@ == before + gap(cursor, len));
        lemma_cover_tiles(matches@, 0, len);
    }
    out
}

/// A segmenter: a compiled pattern by which texts are cut.
#[derive(Debug)]
pub struct Segmenter {
    splitter: Regex,
}

impl Segmenter {
    /// The pattern that the segmenter cuts by.
    pub closed spec fn pattern(&self) -> Seq<char> {
        compiled_from(self.splitter)
    }

    /// The pretokens that the segmenter makes of a text, as byte ranges.
    pub open spec fn chunks(&self, text: Seq<char>) -> Seq<(usize, usize)> {
        chunks_of(pattern_matches(self.pattern(), text), text_bytes(text).len() as usize)
    }

    /// A segmenter for `pattern`; `None` where the pattern does not compile.
    /// Whether it compiles is for the `regex` crate to say: its answer goes
    /// to `from_compiled`, which says what becomes of it.
    pub fn compile(pattern: &str) -> (r: Option<Segmenter>)
        ensures
            r matches Some(s) ==> s.pattern() == pattern@,
    {
        Segmenter::from_compiled(compile_pattern(pattern))
    }

    /// The segmenter of the tokenizer, for `SPLIT_PATTERN`.
    pub fn standard() -> (r: Option<Segmenter>)
        ensures
            r matches Some(s) ==> s.pattern() == SPLIT_PATTERN@,
    {
        Segmenter::compile(SPLIT_PATTERN)
    }

    /// The segmenter that cuts by a compiled regular expression: there is
    /// one if and only if there is a regular expression, and it cuts by
    /// what that one was compiled from.
    pub fn from_compiled(compiled: Option<Regex>) -> (r: Option<Segmenter>)
        ensures
            match compiled {
                Some(re) => r matches Some(s) && s.pattern() == compiled_from(re),
                None => r is None,
            },
    {
        match compiled {
            Some(splitter) => Some(Segmenter { splitter }),
            None => None,
        }
    }

    /// Cuts `text` into its pretokens, each given as the range of its bytes:
    /// the matches of the pattern from left to right and what lies between
    /// them, so that the ranges follow one another from the first byte of
    /// the text to its last.
    pub fn segment(&self, text: &str) -> (chunks: Vec<(usize, usize)>)
        ensures
            chunks@ == self.chunks(text@),
            tiles(chunks@, 0, text_bytes(text@).len() as int),
    {
        let matches = find_matches(&self.splitter, text);
        cover(&matches, text.as_bytes().len())
    }
}

} // verus!
