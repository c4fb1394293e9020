use y3::casing::split_word_cases;

fn segments(word: &str) -> Vec<String> {
    split_word_cases(word)
}

#[test]
fn a_word_is_cut_before_each_capital_after_a_small_letter() {
    assert_eq!(segments("camelCaseExample"), vec!["camel", "Case", "Example"]);
    assert_eq!(segments("fooBarBaz"), vec!["foo", "Bar", "Baz"]);
    assert_eq!(segments("PascalCase"), vec!["Pascal", "Case"]);
}

#[test]
fn a_word_without_a_cut_is_one_segment() {
    assert_eq!(segments("simple"), vec!["simple"]);
    assert_eq!(segments("ALLCAPS"), vec!["ALLCAPS"]);
    assert_eq!(segments("Title"), vec!["Title"]);
    assert_eq!(segments("x"), vec!["x"]);
}

#[test]
fn the_empty_word_gives_one_empty_segment() {
    assert_eq!(segments(""), vec![""]);
}

#[test]
fn capitals_in_a_row_stay_together() {
    assert_eq!(segments("TITLECase"), vec!["TITLECase"]);
    assert_eq!(segments("parseHTTPResponse"), vec!["parse", "HTTPResponse"]);
    assert_eq!(segments("aBC"), vec!["a", "BC"]);
    assert_eq!(segments("aBCdE"), vec!["a", "BCd", "E"]);
}

#[test]
fn digits_count_as_not_capital() {
    assert_eq!(segments("sha256Sum"), vec!["sha256", "Sum"]);
    assert_eq!(segments("A1B"), vec!["A1", "B"]);
}

#[test]
fn capitals_beyond_ascii_cut_too() {
    assert_eq!(segments("caf\u{e9}\u{c9}cole"), vec!["caf\u{e9}", "\u{c9}cole"]);
    assert_eq!(segments("\u{df}\u{dc}ber"), vec!["\u{df}", "\u{dc}ber"]);
}

#[test]
fn the_segments_put_together_are_the_word() {
    for word in [
        "",
        "a",
        "camelCaseExample",
        "TITLECase",
        "parseHTTPResponse",
        "with space And_more",
        "caf\u{e9}\u{c9}cole",
        "\u{1f600}Smile\u{1f600}Again",
    ] {
        let parts = segments(word);
        assert!(!parts.is_empty());
        assert_eq!(parts.concat(), word);
    }
}
