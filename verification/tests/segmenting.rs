use power_token::segment::{cover, SPLIT_PATTERN};
use power_token::Segmenter;
use regex::Regex;

fn pieces(text: &str) -> Vec<&str> {
    let segmenter = Segmenter::standard().expect("the pattern compiles");
    segmenter.segment(text).into_iter().map(|(start, end)| &text[start..end]).collect()
}

#[test]
fn words_take_the_space_before_them() {
    let segmenter = Segmenter::standard().expect("the pattern compiles");
    assert_eq!(segmenter.segment("a b"), vec![(0, 1), (1, 3)]);
    assert_eq!(segmenter.segment("Hello world!"), vec![(0, 5), (5, 11), (11, 12)]);
    assert_eq!(pieces("Hello world!"), vec!["Hello", " world", "!"]);
}

#[test]
fn contractions_digits_and_symbols() {
    assert_eq!(pieces("it's I'LL"), vec!["it", "'s", " I", "'LL"]);
    assert_eq!(pieces("12345"), vec!["123", "45"]);
    assert_eq!(pieces("a!!! b"), vec!["a", "!!!", " b"]);
    assert_eq!(pieces("x = y"), vec!["x", " =", " y"]);
    assert_eq!(pieces("a  b"), vec!["a", "  ", "b"]);
    assert_eq!(pieces("a\n\nb"), vec!["a", "\n\n", "b"]);
    assert_eq!(pieces("end  "), vec!["end", "  "]);
    assert_eq!(pieces("naïve 日本"), vec!["naïve", " 日本"]);
}

#[test]
fn the_empty_text_has_no_pieces() {
    let segmenter = Segmenter::standard().expect("the pattern compiles");
    assert_eq!(segmenter.segment(""), Vec::<(usize, usize)>::new());
}

#[test]
fn every_byte_lies_in_one_piece() {
    let segmenter = Segmenter::standard().expect("the pattern compiles");
    let text = "Mixed: words, 1234567 numbers\t\tand\r\n symbols ¿?! 日本語 done";
    let chunks = segmenter.segment(text);
    let mut cursor = 0;
    for (start, end) in chunks {
        assert_eq!(start, cursor);
        assert!(start < end);
        cursor = end;
    }
    assert_eq!(cursor, text.len());
}

#[test]
fn what_the_pattern_leaves_is_a_piece_too() {
    let segmenter = Segmenter::compile("b+").expect("the pattern compiles");
    assert_eq!(segmenter.segment("aabba"), vec![(0, 2), (2, 4), (4, 5)]);
    assert_eq!(segmenter.segment("bb"), vec![(0, 2)]);
    assert_eq!(segmenter.segment("aaa"), vec![(0, 3)]);
    assert_eq!(segmenter.segment("baab"), vec![(0, 1), (1, 3), (3, 4)]);
}

#[test]
fn a_pattern_that_does_not_compile_gives_no_segmenter() {
    assert!(Segmenter::compile("(").is_none());
    assert!(Segmenter::compile(r"\s+(?!\S)").is_none());
    assert!(Segmenter::compile(SPLIT_PATTERN).is_some());
}

#[test]
fn cover_takes_the_matches_and_fills_the_gaps() {
    assert_eq!(cover(&vec![(1, 3), (3, 4)], 6), vec![(0, 1), (1, 3), (3, 4), (4, 6)]);
    assert_eq!(cover(&vec![], 4), vec![(0, 4)]);
    assert_eq!(cover(&vec![], 0), Vec::<(usize, usize)>::new());
    assert_eq!(cover(&vec![(0, 2), (2, 5)], 5), vec![(0, 2), (2, 5)]);
    assert_eq!(cover(&vec![(2, 2)], 4), vec![(0, 2), (2, 2), (2, 4)]);
}

#[test]
fn cover_passes_over_matches_out_of_place() {
    assert_eq!(cover(&vec![(0, 3), (2, 5)], 6), vec![(0, 3), (3, 6)]);
    assert_eq!(cover(&vec![(4, 2)], 6), vec![(0, 6)]);
    assert_eq!(cover(&vec![(1, 9), (2, 3)], 6), vec![(0, 2), (2, 3), (3, 6)]);
}

#[test]
fn a_compiled_pattern_makes_a_segmenter() {
    assert!(Segmenter::from_compiled(None).is_none());
    assert!(Segmenter::from_compiled(Regex::new("(").ok()).is_none());
    let segmenter = Segmenter::from_compiled(Regex::new("b+").ok()).expect("there is a pattern");
    assert_eq!(segmenter.segment("aabba"), vec![(0, 2), (2, 4), (4, 5)]);
}
