use lut_rs::text::{char_is_whitespace, chars_of, line_end, next_token, range_equals};

#[test]
fn whitespace_is_what_the_standard_library_says() {
    for code in 0..=0x10FFFFu32 {
        if let Some(c) = char::from_u32(code) {
            assert_eq!(char_is_whitespace(c), c.is_whitespace(), "U+{:04X}", code);
        }
    }
}

#[test]
fn a_string_gives_its_characters() {
    assert_eq!(chars_of(""), Vec::<char>::new());
    assert_eq!(chars_of("a\u{e9}\u{1f600}\n"), vec!['a', '\u{e9}', '\u{1f600}', '\n']);
}

#[test]
fn a_line_ends_at_a_line_feed_or_with_the_text() {
    let text = chars_of("ab\n\ncd");
    assert_eq!(line_end(&text, 0), 2);
    assert_eq!(line_end(&text, 1), 2);
    assert_eq!(line_end(&text, 2), 2);
    assert_eq!(line_end(&text, 3), 3);
    assert_eq!(line_end(&text, 4), 6);
    assert_eq!(line_end(&text, 6), 6);
}

#[test]
fn tokens_are_found_one_after_another() {
    let text = chars_of("  one\ttwo \u{3000} three  ");
    let end = text.len();
    let first = next_token(&text, 0, end);
    assert_eq!(first, (2, 5));
    let second = next_token(&text, first.1, end);
    assert_eq!(second, (6, 9));
    let third = next_token(&text, second.1, end);
    assert_eq!(third, (12, 17));
    let fourth = next_token(&text, third.1, end);
    assert_eq!(fourth.0, fourth.1);
    assert_eq!(next_token(&text, 0, 4), (2, 4));
    assert_eq!(next_token(&text, 0, 2), (2, 2));
    assert_eq!(next_token(&text, 0, 0), (0, 0));
}

#[test]
fn tokens_agree_with_the_standard_library() {
    for line in ["", " ", "a", " a", "a ", "LUT_3D_SIZE 33", "0.1\t0.2\r0.3\r", "\u{a0}x\u{2028}y\u{85}z", "a  b   c    d"] {
        let text = chars_of(line);
        let mut found: Vec<String> = Vec::new();
        let mut from = 0;
        loop {
            let (start, stop) = next_token(&text, from, text.len());
            if start == stop {
                break;
            }
            found.push(text[start..stop].iter().collect());
            from = stop;
        }
        let expected: Vec<String> = line.split_whitespace().map(|token| token.to_string()).collect();
        assert_eq!(found, expected, "{:?}", line);
    }
}

#[test]
fn ranges_are_compared_with_words() {
    let text = chars_of("LUT_3D_SIZE 2");
    let word = chars_of("LUT_3D_SIZE");
    assert!(range_equals(&text, 0, 11, &word));
    assert!(!range_equals(&text, 0, 10, &word));
    assert!(!range_equals(&text, 1, 12, &word));
    assert!(!range_equals(&text, 0, 12, &word));
    assert!(range_equals(&text, 3, 3, &[]));
}
