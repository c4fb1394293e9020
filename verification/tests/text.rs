use y3::chunks::{chunk_ranges, is_space_byte};
use y3::text::slice;
use y3::trim::{keeps, trim_edges};

#[test]
fn chunks_are_the_runs_between_white_space() {
    assert_eq!(chunk_ranges("ab cd"), vec![(0, 2), (3, 5)]);
    assert_eq!(chunk_ranges("  ab\t\tcd  "), vec![(2, 4), (6, 8)]);
    assert_eq!(chunk_ranges("one"), vec![(0, 3)]);
    assert_eq!(chunk_ranges("a\nb\rc\x0cd"), vec![(0, 1), (2, 3), (4, 5), (6, 7)]);
}

#[test]
fn no_chunk_without_a_byte_that_is_no_white_space() {
    assert_eq!(chunk_ranges(""), Vec::<(usize, usize)>::new());
    assert_eq!(chunk_ranges(" \t\n\r\x0c"), Vec::<(usize, usize)>::new());
}

#[test]
fn only_the_five_ascii_bytes_separate() {
    assert!(is_space_byte(b' '));
    assert!(is_space_byte(b'\t'));
    assert!(is_space_byte(b'\n'));
    assert!(is_space_byte(0x0c));
    assert!(is_space_byte(b'\r'));
    assert!(!is_space_byte(0x0b));
    assert!(!is_space_byte(b'a'));
    assert!(!is_space_byte(0xa0));
    assert_eq!(chunk_ranges("a\u{a0}b\x0bc"), vec![(0, 6)]);
    assert_eq!(chunk_ranges("a\u{2003}b"), vec![(0, 5)]);
}

#[test]
fn chunk_ranges_count_bytes() {
    assert_eq!(chunk_ranges("\u{e9}t\u{e9} \u{1f600}"), vec![(0, 5), (6, 10)]);
}

#[test]
fn a_slice_is_the_text_between_two_offsets() {
    assert_eq!(slice("hello world", 6, 11), Some("world"));
    assert_eq!(slice("hello", 0, 5), Some("hello"));
    assert_eq!(slice("hello", 2, 2), Some(""));
    assert_eq!(slice("", 0, 0), Some(""));
    assert_eq!(slice("caf\u{e9}s", 3, 5), Some("\u{e9}"));
}

#[test]
fn no_slice_outside_the_text_or_through_a_character() {
    assert_eq!(slice("hello", 3, 2), None);
    assert_eq!(slice("hello", 0, 6), None);
    assert_eq!(slice("hello", 6, 6), None);
    assert_eq!(slice("caf\u{e9}s", 3, 4), None);
    assert_eq!(slice("caf\u{e9}s", 4, 5), None);
    assert_eq!(slice("hello", usize::MAX, usize::MAX), None);
}

#[test]
fn letters_digits_and_the_apostrophe_are_kept() {
    assert!(keeps('a'));
    assert!(keeps('Z'));
    assert!(keeps('7'));
    assert!(keeps('\''));
    assert!(keeps('\u{e9}'));
    assert!(keeps('\u{4e2d}'));
    assert!(!keeps('-'));
    assert!(!keeps('_'));
    assert!(!keeps(' '));
    assert!(!keeps('"'));
    assert!(!keeps('\u{1f600}'));
}

#[test]
fn trimming_leaves_what_lies_between_the_kept_characters() {
    assert_eq!(trim_edges("(hello)"), "hello");
    assert_eq!(trim_edges("hello"), "hello");
    assert_eq!(trim_edges("\"it's\","), "it's");
    assert_eq!(trim_edges("'quoted'"), "'quoted'");
    assert_eq!(trim_edges("--a-b--"), "a-b");
    assert_eq!(trim_edges("x"), "x");
    assert_eq!(trim_edges("\u{1f600}caf\u{e9}\u{1f600}"), "caf\u{e9}");
}

#[test]
fn trimming_symbols_leaves_nothing() {
    assert_eq!(trim_edges(""), "");
    assert_eq!(trim_edges("--"), "");
    assert_eq!(trim_edges("\u{2014}"), "");
    assert_eq!(trim_edges("(...)"), "");
}
