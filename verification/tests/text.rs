use memscan::text::{chars_of, contains, matches_at, push_chars, seek, space, split_at, split_words, Span, Stop};

fn chars(s: &str) -> Vec<char> {
    s.chars().collect()
}

fn texts(spans: &[Span], s: &[char]) -> Vec<String> {
    spans.iter().map(|span| span.slice(s).iter().collect()).collect()
}

#[test]
fn white_space_is_what_std_says() {
    for code in 0..0x11_0000u32 {
        if let Some(c) = char::from_u32(code) {
            assert_eq!(space(c), c.is_whitespace(), "{:x}", code);
        }
    }
}

#[test]
fn characters_of_a_text() {
    assert_eq!(chars_of(""), chars(""));
    assert_eq!(chars_of("a-b \u{e9}\u{1f600}"), vec!['a', '-', 'b', ' ', '\u{e9}', '\u{1f600}']);
}

#[test]
fn characters_are_appended() {
    let mut out = String::from("ab");
    push_chars(&mut out, &chars("c\u{e9}"));
    assert_eq!(out, "abc\u{e9}");
    push_chars(&mut out, &[]);
    assert_eq!(out, "abc\u{e9}");
}

#[test]
fn first_character_of_a_class() {
    let s = chars("  ab c");
    assert_eq!(seek(&s, 0, Stop::NonSpace), 2);
    assert_eq!(seek(&s, 2, Stop::NonSpace), 2);
    assert_eq!(seek(&s, 2, Stop::Space), 4);
    assert_eq!(seek(&s, 5, Stop::Space), 6);
    assert_eq!(seek(&s, 6, Stop::Space), 6);
    assert_eq!(seek(&s, 0, Stop::Char('c')), 5);
    assert_eq!(seek(&s, 0, Stop::Char('z')), 6);
    assert!(Stop::Char('c').test('c'));
    assert!(!Stop::Char('c').test('d'));
    assert!(Stop::Space.test('\t'));
    assert!(Stop::NonSpace.test('x'));
}

#[test]
fn words_are_what_std_splits() {
    for text in ["", " ", "a", " a", "a ", "a b", "  a\t\tb\n", "\u{a0}x\u{3000}y z\r\n", "one two three four five six seven"] {
        let s = chars(text);
        let expected: Vec<String> = text.split_whitespace().map(|w| w.to_string()).collect();
        assert_eq!(texts(&split_words(&s), &s), expected, "{:?}", text);
    }
}

#[test]
fn pieces_are_what_std_splits() {
    for text in ["", "-", "a", "a-b", "-a", "a-", "a--b", "--", "1-2-3"] {
        let s = chars(text);
        let expected: Vec<String> = text.split('-').map(|w| w.to_string()).collect();
        assert_eq!(texts(&split_at(&s, '-'), &s), expected, "{:?}", text);
    }
    let s = chars("a\nb\n");
    assert_eq!(texts(&split_at(&s, '\n'), &s), vec!["a", "b", ""]);
}

#[test]
fn text_inside_a_text() {
    for (hay, needle) in [("", ""), ("a", ""), ("", "a"), ("abc", "abc"), ("abc", "bc"), ("abc", "ab"), ("abc", "b"), ("abc", "ac"), ("abc", "abcd"), ("aaab", "aab"), ("ab\u{e9}", "\u{e9}"), ("abab", "bab")] {
        assert_eq!(contains(&chars(hay), &chars(needle)), hay.contains(needle), "{:?} {:?}", hay, needle);
    }
}

#[test]
fn text_at_a_position() {
    let hay = chars("abcabc");
    assert!(matches_at(&hay, &chars("abc"), 0));
    assert!(matches_at(&hay, &chars("abc"), 3));
    assert!(!matches_at(&hay, &chars("abc"), 1));
    assert!(matches_at(&hay, &chars(""), 6));
    assert!(matches_at(&hay, &chars("c"), 5));
}
