use aries::text::{split_lines, split_whitespace, str_chars, string_from_chars};

fn lines(s: &str) -> Vec<String> {
    let cs = str_chars(s);
    split_lines(&cs).iter().map(|l| string_from_chars(l)).collect()
}

fn words(s: &str) -> Vec<String> {
    let cs = str_chars(s);
    split_whitespace(&cs).iter().map(|l| string_from_chars(l)).collect()
}

#[test]
fn lines_match_std() {
    for s in ["", "\n", "a", "a\n", "a\n\n", "a\r\nb\r\n", "foo\r\nbar\n\nbaz\r", "\r\n", "x\r\r\n", "é\nü"] {
        let expected: Vec<String> = s.lines().map(String::from).collect();
        assert_eq!(lines(s), expected, "lines of {s:?}");
    }
}

#[test]
fn final_newline_changes_nothing() {
    assert_eq!(lines("a\nb"), lines("a\nb\n"));
}

#[test]
fn words_match_std() {
    for s in ["", "  ", "a b", " a\tb\u{3000}c\u{a0} ", "one\u{2028}two\u{85}three", "x\u{200b}y"] {
        let expected: Vec<String> = s.split_whitespace().map(String::from).collect();
        assert_eq!(words(s), expected, "words of {s:?}");
    }
}
