use xummary::text::trim;

#[test]
fn trimming_agrees_with_std_on_every_character_up_to_the_ideographic_space() {
    for u in 0u32..=0x3001 {
        if let Some(c) = char::from_u32(u) {
            let s = format!("{c}a{c}");
            assert_eq!(trim(&s), s.trim(), "U+{u:04X}");
        }
    }
    for c in ['\u{200b}', '\u{180e}', '\u{feff}', '\u{2060}'] {
        let s = format!("{c}a{c}");
        assert_eq!(trim(&s), s.trim());
    }
}
