use y3::casing::split_word_cases;
use y3::tokenizer::Tokenizer;

const LINES: [&str; 9] = [
    "Visit https://example.com today",
    "fooBarBaz and snake_case_word, plus Get-Item",
    "  (hello)   world\t\ttabs ",
    "Contact me@test.com please, or see docs/readMe.md",
    "Error 404 occurred in parseHTTPResponse",
    "caf\u{e9}Bar \u{fc}ber na\u{ef}ve \u{1f600} smile",
    "a b c I x",
    "",
    "don't stop-believing \\d{3} utf8",
];

fn places_of(line: &str, line_no: usize) -> Vec<(String, usize, usize, usize)> {
    let mut tokenizer = Tokenizer::new().unwrap();
    tokenizer.tokenize_line(line, line_no);
    tokenizer
        .tokens()
        .iter()
        .map(|t| {
            (
                t.word().to_string(),
                t.position().start(),
                t.position().end(),
                t.position().line_no(),
            )
        })
        .collect()
}

fn all_places(tokenizer: &Tokenizer) -> Vec<(String, usize, usize, usize)> {
    tokenizer
        .tokens()
        .iter()
        .map(|t| {
            (
                t.word().to_string(),
                t.position().start(),
                t.position().end(),
                t.position().line_no(),
            )
        })
        .collect()
}

#[test]
fn a_chunk_of_one_byte_gives_no_token() {
    for line in ["a", "I", "(b)", "x y z", "'", "a, b; c.", "\"q\""] {
        assert_eq!(places_of(line, 1), Vec::new(), "{}", line);
    }
}

#[test]
fn an_ignored_chunk_gives_no_token() {
    for line in [
        "https://example.com/somePath",
        "(http://localhost)",
        "some/filePath/here.txt",
        "12345",
        "user.name@example.org",
        "see\\textbf",
    ] {
        assert_eq!(places_of(line, 1), Vec::new(), "{}", line);
    }
}

#[test]
fn no_character_is_lost_in_cutting() {
    for line in LINES {
        for word in line.split(' ') {
            assert_eq!(split_word_cases(word).concat(), word);
        }
    }
}

#[test]
fn reading_again_after_clearing_gives_the_same() {
    let lines: Vec<String> = LINES.iter().map(|l| l.to_string()).collect();
    let mut tokenizer = Tokenizer::new().unwrap();
    tokenizer.tokenize(&vec!["left over".to_string()]);
    tokenizer.clear_tokens();
    tokenizer.tokenize(&lines);
    let first = all_places(&tokenizer);
    assert!(!first.is_empty());
    tokenizer.clear_tokens();
    tokenizer.tokenize(&lines);
    assert_eq!(all_places(&tokenizer), first);
    let mut fresh = Tokenizer::new().unwrap();
    fresh.tokenize(&lines);
    assert_eq!(all_places(&fresh), first);
}

#[test]
fn tokens_of_a_line_ascend_where_those_of_each_chunk_do() {
    for line in LINES {
        let starts: Vec<usize> = places_of(line, 1).iter().map(|p| p.1).collect();
        for pair in starts.windows(2) {
            assert!(pair[0] <= pair[1], "{}", line);
        }
    }
}

#[test]
fn a_later_part_may_start_before_an_earlier_one() {
    let starts: Vec<usize> = places_of("1ab_cd", 1).iter().map(|p| p.1).collect();
    assert_eq!(starts, vec![1, 0]);
}

#[test]
fn a_later_chunk_starts_behind_an_earlier_one() {
    let got = places_of("1ab_cd 2ef_gh", 1);
    let starts: Vec<usize> = got.iter().map(|p| p.1).collect();
    assert_eq!(starts, vec![1, 0, 8, 7]);
    let ends: Vec<usize> = got.iter().map(|p| p.2).collect();
    assert_eq!(ends, vec![2, 1, 9, 8]);
}

#[test]
fn every_token_lies_in_its_line() {
    for (index, line) in LINES.iter().enumerate() {
        for (word, start, end, line_no) in places_of(line, index + 1) {
            assert!(start < end, "{}", word);
            assert!(end < line.len(), "{}", word);
            assert_eq!(line_no, index + 1);
            assert!(word.len() <= end - start + 1);
        }
    }
}

#[test]
fn every_token_of_a_text_has_the_number_of_one_of_its_lines() {
    let lines: Vec<String> = LINES.iter().map(|l| l.to_string()).collect();
    let mut tokenizer = Tokenizer::new().unwrap();
    tokenizer.tokenize(&lines);
    let mut last = 1;
    for token in tokenizer.tokens() {
        let line_no = token.position().line_no();
        assert!(1 <= line_no && line_no <= lines.len());
        assert!(last <= line_no);
        last = line_no;
        assert!(token.position().start() <= token.position().end());
    }
}
