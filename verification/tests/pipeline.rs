use y3::patterns::PatternSet;
use y3::tokenizer::{push_candidates, push_chunk, push_line, push_segments, Token};

fn places(tokens: &[Token]) -> Vec<(String, usize, usize, usize)> {
    tokens
        .iter()
        .map(|t| {
            (
                t.word().to_string(),
                t.position().start(),
                t.position().end(),
                t.position().line_no(),
            )
        })
        .collect()
}

fn place(word: &str, start: usize, end: usize, line_no: usize) -> (String, usize, usize, usize) {
    (word.to_string(), start, end, line_no)
}

#[test]
fn each_segment_becomes_a_token_at_the_same_place() {
    let mut tokens = vec![Token::new("before", 1, 2, 3)];
    push_segments(&mut tokens, vec!["foo".to_string(), "Bar".to_string()], 4, 9, 2);
    assert_eq!(
        places(&tokens),
        vec![place("before", 1, 2, 3), place("foo", 4, 9, 2), place("Bar", 4, 9, 2)]
    );
}

#[test]
fn no_segment_gives_no_token() {
    let mut tokens = Vec::new();
    push_segments(&mut tokens, Vec::new(), 4, 9, 2);
    assert!(tokens.is_empty());
}

#[test]
fn candidates_are_placed_from_the_offset() {
    let mut tokens = Vec::new();
    push_candidates(&mut tokens, "fooBar baz", &vec![(0, 6), (7, 10)], 10, 4);
    assert_eq!(
        places(&tokens),
        vec![place("foo", 10, 15, 4), place("Bar", 10, 15, 4), place("baz", 17, 19, 4)]
    );
}

#[test]
fn a_candidate_of_one_byte_or_none_gives_no_token() {
    let mut tokens = Vec::new();
    push_candidates(&mut tokens, "a bc", &vec![(0, 1), (1, 1), (2, 4)], 0, 1);
    assert_eq!(places(&tokens), vec![place("bc", 2, 3, 1)]);
}

#[test]
fn a_range_that_is_none_of_the_part_gives_no_token() {
    let mut tokens = Vec::new();
    let ranges = vec![(3, 1), (0, 9), (7, 9), (usize::MAX - 1, usize::MAX)];
    push_candidates(&mut tokens, "abcdef", &ranges, 0, 1);
    assert!(tokens.is_empty());
}

#[test]
fn a_range_that_cuts_a_character_gives_no_token() {
    let mut tokens = Vec::new();
    push_candidates(&mut tokens, "\u{e9}ab\u{e9}", &vec![(1, 4), (2, 5), (2, 4)], 0, 1);
    assert_eq!(places(&tokens), vec![place("ab", 2, 3, 1)]);
}

#[test]
fn a_candidate_of_two_bytes_gives_a_token() {
    let mut tokens = Vec::new();
    push_candidates(&mut tokens, "ab", &vec![(0, 2)], 7, 9);
    assert_eq!(places(&tokens), vec![place("ab", 7, 8, 9)]);
}

#[test]
fn a_chunk_is_trimmed_parted_and_searched() {
    let patterns = PatternSet::new().unwrap();
    let mut tokens = Vec::new();
    push_chunk(&mut tokens, &patterns, "(snake_case)", 5, 2);
    assert_eq!(places(&tokens), vec![place("snake", 5, 9, 2), place("case", 5, 8, 2)]);
}

#[test]
fn an_ignored_chunk_adds_nothing() {
    let patterns = PatternSet::new().unwrap();
    let mut tokens = vec![Token::new("kept", 0, 3, 1)];
    push_chunk(&mut tokens, &patterns, "https://example.com/somePath", 0, 1);
    push_chunk(&mut tokens, &patterns, "<me@test.com>", 0, 1);
    push_chunk(&mut tokens, &patterns, "dir/fileName.rs", 0, 1);
    push_chunk(&mut tokens, &patterns, "(2024)", 0, 1);
    push_chunk(&mut tokens, &patterns, "x\\section{intro}", 0, 1);
    assert_eq!(places(&tokens), vec![place("kept", 0, 3, 1)]);
}

#[test]
fn the_largest_offset_that_fits_is_taken() {
    let patterns = PatternSet::new().unwrap();
    let mut tokens = Vec::new();
    push_chunk(&mut tokens, &patterns, "ab", usize::MAX - 2, 1);
    assert_eq!(places(&tokens), vec![place("ab", usize::MAX - 2, usize::MAX - 1, 1)]);
}

#[test]
fn a_line_is_read_chunk_by_chunk() {
    let patterns = PatternSet::new().unwrap();
    let mut tokens = Vec::new();
    push_line(&mut tokens, &patterns, "  (hello)  1ab_cd  x-ray, don't  caf\u{e9}Bar", 7);
    assert_eq!(
        places(&tokens),
        vec![
            place("hello", 0, 4, 7),
            place("ab", 9, 10, 7),
            place("cd", 8, 9, 7),
            place("ray", 15, 17, 7),
            place("don", 22, 24, 7),
            place("caf", 28, 30, 7),
            place("Bar", 33, 35, 7),
        ]
    );
}
