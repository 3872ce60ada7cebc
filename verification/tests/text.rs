use gmaps_optimal_placement::text::is_whitespace;

#[test]
fn white_space_is_what_char_says_it_is() {
    for c in (0..=0x10FFFFu32).filter_map(char::from_u32) {
        assert_eq!(is_whitespace(c), c.is_whitespace(), "{:#x}", c as u32);
    }
}
