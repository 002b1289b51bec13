use agni::text::first_word_of;

#[test]
fn first_word_skips_leading_whitespace() {
    assert_eq!(first_word_of("  hello world"), "hello");
    assert_eq!(first_word_of("\u{2028}\u{85}x\u{205F}y"), "x");
    assert_eq!(first_word_of("   "), "");
    assert_eq!(first_word_of(""), "");
    assert_eq!(first_word_of("one"), "one");
    assert_eq!(first_word_of("a\u{200B}b c"), "a\u{200B}b");
}
