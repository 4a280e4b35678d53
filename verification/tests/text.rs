//! Texts as the library cuts them.
use modelsteward::text::trimmed;

#[test]
fn whitespace_is_what_unicode_says_it_is() {
    for c in (0..=0x10_ffffu32).filter_map(char::from_u32) {
        assert_eq!(trimmed(&[c]).is_empty(), c.is_whitespace(), "{:x}", c as u32);
    }
}
