use nucleo::utf32_str::Utf32Str;
use nucleo::utf32_string::Utf32String;

#[test]
fn test_utf32str_ascii() {
    fn expect_ascii(src: &str, is_ascii: bool) {
        let mut buffer = Vec::new();
        assert!(Utf32Str::new(src, &mut buffer).is_ascii() == is_ascii);
        let s = Utf32String::from(src);
        assert!(s.slice(0, s.len()).is_ascii() == is_ascii);
        let s = Utf32String::from(src.to_owned().as_str());
        assert!(s.slice(0, s.len()).is_ascii() == is_ascii);
    }

    // ascii
    expect_ascii("", true);
    expect_ascii("a", true);
    expect_ascii("a\nb", true);
    expect_ascii("\n\r", true);

    // not ascii
    expect_ascii("aü", false);
    expect_ascii("au\u{0308}", false);

    // windows-style newline
    expect_ascii("a\r\nb", false);
    expect_ascii("ü\r\n", false);
    expect_ascii("\r\n", false);
}

#[test]
fn test_grapheme_truncation() {
    // ascii is preserved
    let s = Utf32String::from("ab");
    assert_eq!(s.slice(0, s.len()).get(0), 'a');
    assert_eq!(s.slice(0, s.len()).get(1), 'b');

    // windows-style newline is truncated to '\n'
    let s = Utf32String::from("\r\n");
    assert_eq!(s.slice(0, s.len()).get(0), '\n');

    // normal graphemes are truncated to the first character
    let s = Utf32String::from("u\u{0308}\r\n");
    assert_eq!(s.slice(0, s.len()).get(0), 'u');
    assert_eq!(s.slice(0, s.len()).get(1), '\n');
}

#[test]
fn grapheme_lengths_and_slices() {
    assert_eq!(Utf32String::from("au\u{0308}").len(), 2);
    let s = Utf32String::from("hello world");
    assert_eq!(s.slice_u32(6, 11).len(), 5);
    assert_eq!(s.slice_u32(6, 11).get(0), 'w');
    assert_eq!(s.last(), 'd');
    assert_eq!(s.to_string(), "hello world");
    let mut buf = Vec::new();
    let t = Utf32Str::new("  ab ", &mut buf);
    assert_eq!(t.leading_white_space(), 2);
    assert_eq!(t.trailing_white_space(), 1);
    assert_eq!(t.first(), ' ');
    let mut chars = t.chars();
    assert_eq!(chars.next(), Some(' '));
    assert_eq!(chars.next_back(), Some(' '));
    assert_eq!(chars.next_back(), Some('b'));
}

#[test]
fn push_keeps_ascii_until_needed() {
    let mut s = Utf32String::default();
    s.push_str("ab");
    assert!(s.is_ascii());
    s.push('é');
    assert!(!s.is_ascii());
    s.push_str("cd");
    assert_eq!(s.to_string(), "abécd");
}
