use y3::engine::PatternFault;
use y3::patterns::{
    accept, PatternSet, EMAIL_SHAPE, ESCAPE_SHAPE, NUMBER_SHAPE, PATH_SHAPE, SPLIT_SHAPE,
    URL_SHAPE, WORD_SHAPE,
};

fn refusal(pattern: &str) -> regex::Error {
    regex::Regex::new(pattern).unwrap_err()
}

fn set() -> PatternSet {
    PatternSet::new().unwrap()
}

#[test]
fn the_seven_shapes_compile() {
    assert!(PatternSet::new().is_ok());
    for shape in [
        URL_SHAPE,
        PATH_SHAPE,
        NUMBER_SHAPE,
        ESCAPE_SHAPE,
        EMAIL_SHAPE,
        WORD_SHAPE,
        SPLIT_SHAPE,
    ] {
        assert!(regex::Regex::new(shape).is_ok());
    }
}

#[test]
fn the_shapes_are_written_as_the_engine_reads_them() {
    assert_eq!(URL_SHAPE, r"https?://\S+");
    assert_eq!(PATH_SHAPE, r"[\w\-\.]+(/[\w\-\.]+)+");
    assert_eq!(NUMBER_SHAPE, r"\b\d+\b");
    assert_eq!(ESCAPE_SHAPE, r"\\[a-zA-Z]+[{[^()]+}]*");
    assert_eq!(EMAIL_SHAPE, r"\b[A-Za-z0-9._%+-]+@[A-Za-z0-9.-]+\.[A-Za-z]{2,}\b");
    assert_eq!(WORD_SHAPE, r"[a-zA-Z]+[0-9]*[a-zA-Z]*");
    assert_eq!(SPLIT_SHAPE, "[ _\\-\u{2014}]");
}

#[test]
fn links_are_ignored() {
    assert!(set().is_ignored("https://example.com"));
    assert!(set().is_ignored("http://a"));
    assert!(set().is_ignored("see:https://example.com/somePath"));
    assert!(!set().is_ignored("https"));
    assert!(!set().is_ignored("ftp:x"));
}

#[test]
fn file_paths_are_ignored() {
    assert!(set().is_ignored("src/main.rs"));
    assert!(set().is_ignored("a/b/c"));
    assert!(set().is_ignored("and/or"));
    assert!(!set().is_ignored("main.rs"));
}

#[test]
fn numbers_standing_alone_are_ignored() {
    assert!(set().is_ignored("404"));
    assert!(set().is_ignored("1.5"));
    assert!(set().is_ignored("x 12 y"));
    assert!(!set().is_ignored("abc123"));
    assert!(!set().is_ignored("1ab"));
    assert!(!set().is_ignored("utf8"));
}

#[test]
fn escapes_are_ignored() {
    assert!(set().is_ignored("\\d{3}"));
    assert!(set().is_ignored("\\alpha"));
    assert!(!set().is_ignored("\\"));
    assert!(!set().is_ignored("\\+"));
}

#[test]
fn mail_addresses_are_ignored() {
    assert!(set().is_ignored("me@test.com"));
    assert!(set().is_ignored("first.last+tag@mail.example.org"));
    assert!(!set().is_ignored("me@test"));
    assert!(!set().is_ignored("me@test.c"));
    assert!(!set().is_ignored("@test.com"));
}

#[test]
fn plain_words_are_not_ignored() {
    assert!(!set().is_ignored("hello"));
    assert!(!set().is_ignored("camelCase"));
    assert!(!set().is_ignored("snake_case"));
    assert!(!set().is_ignored("don't"));
    assert!(!set().is_ignored(""));
}

#[test]
fn a_chunk_is_parted_at_each_separator() {
    assert_eq!(set().split_chunk("snake_case_word"), vec!["snake", "case", "word"]);
    assert_eq!(set().split_chunk("Get-Item"), vec!["Get", "Item"]);
    assert_eq!(set().split_chunk("run\u{2014}but"), vec!["run", "but"]);
    assert_eq!(set().split_chunk("one two"), vec!["one", "two"]);
    assert_eq!(set().split_chunk("plain"), vec!["plain"]);
}

#[test]
fn separators_side_by_side_leave_empty_parts() {
    assert_eq!(set().split_chunk("a__b"), vec!["a", "", "b"]);
    assert_eq!(set().split_chunk("_x-"), vec!["", "x", ""]);
    assert_eq!(set().split_chunk(""), vec![""]);
    assert_eq!(set().split_chunk("-"), vec!["", ""]);
}

#[test]
fn candidates_are_letters_with_digits_inside() {
    assert_eq!(set().find_candidates("hello"), vec![(0, 5)]);
    assert_eq!(set().find_candidates("abc123def456"), vec![(0, 9)]);
    assert_eq!(set().find_candidates("1ab"), vec![(1, 3)]);
    assert_eq!(set().find_candidates("don't"), vec![(0, 3), (4, 5)]);
    assert_eq!(set().find_candidates("a.b,cd"), vec![(0, 1), (2, 3), (4, 6)]);
    assert_eq!(set().find_candidates("caf\u{e9}Bar"), vec![(0, 3), (5, 8)]);
}

#[test]
fn no_candidate_without_a_letter() {
    assert_eq!(set().find_candidates(""), Vec::<(usize, usize)>::new());
    assert_eq!(set().find_candidates("123"), Vec::<(usize, usize)>::new());
    assert_eq!(set().find_candidates("\u{e9}\u{1f600}"), Vec::<(usize, usize)>::new());
}

#[test]
fn a_refused_pattern_is_named_in_the_error() {
    let error = accept("(open", Err(refusal("(open"))).unwrap_err();
    assert_eq!(error.pattern(), "(open");
    assert!(matches!(error.fault(), PatternFault::Syntax(_)));
}

#[test]
fn a_pattern_too_big_is_told_from_a_wrong_one() {
    let error = accept("\\w{1000}", Err(refusal("\\w{1000}"))).unwrap_err();
    assert_eq!(error.pattern(), "\\w{1000}");
    assert!(matches!(error.fault(), PatternFault::TooBig(_)));
}

#[test]
fn the_error_names_the_pattern_it_was_given_with() {
    let error = accept("shown", Err(refusal("["))).unwrap_err();
    assert_eq!(error.pattern(), "shown");
}
