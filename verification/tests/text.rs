use obsidian_hugo::text::{char_is_ascii_punctuation, char_is_whitespace};

#[test]
fn whitespace_and_punctuation_agree_with_std() {
    let mut n = 0;
    for u in 0u32..0x3100 {
        if let Some(c) = char::from_u32(u) {
            assert_eq!(char_is_whitespace(c), c.is_whitespace(), "U+{:04X}", u);
            assert_eq!(char_is_ascii_punctuation(c), c.is_ascii_punctuation(), "U+{:04X}", u);
            n += 1;
        }
    }
    assert!(n > 0x3000);
    assert!(char_is_whitespace('\u{3000}'));
    assert!(!char_is_whitespace('a'));
}
