use semantex_core::text::is_white_space;

#[test]
fn white_space_is_what_the_language_takes_for_it() {
    for c in '\0'..=char::MAX {
        assert_eq!(is_white_space(c), c.is_whitespace(), "{:x}", c as u32);
    }
}
